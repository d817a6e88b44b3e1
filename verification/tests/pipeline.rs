use fatpdf::document::{ObjectKind, Document, Entry, IndirectObject, Slot};
use fatpdf::extract::{ExtractionError, PageScan, PageText, TextBlock, TextLine};
use fatpdf::graft::GraftError;
use fatpdf::merge::MergeError;
use fatpdf::pipeline::{
    primary_arrived, secondary_arrived, step, PipelineAction, PipelineError, PipelineEvent,
    PipelineState, Stage,
};

fn text(lines: &[&str]) -> PageScan {
    PageScan::Readable(PageText {
        blocks: vec![TextBlock {
            lines: lines.iter().map(|s| TextLine { chars: s.chars().map(Some).collect() }).collect(),
        }],
    })
}

fn document(tag: &str, pages: usize) -> Document {
    let mut doc = Document::new();
    for i in 0..pages {
        let contents = doc
            .add_object(IndirectObject {
                kind: ObjectKind::Dictionary,
                parent: None,
                entries: vec![],
                stream: format!("{}{}", tag, i).into_bytes(),
            })
            .unwrap();
        let page = doc
            .add_object(IndirectObject {
                kind: ObjectKind::Dictionary,
                parent: None,
                entries: vec![Entry { key: "Contents".to_string(), value: Slot::Ref(contents) }],
                stream: vec![],
            })
            .unwrap();
        doc.append_page(page).unwrap();
    }
    doc
}

fn fail(error: PipelineError) -> (PipelineState, PipelineAction) {
    (PipelineState::Done, PipelineAction::Fail { error })
}

#[test]
fn run_without_numbers_saves_the_primary_and_fetches_nothing() {
    let primary = document("A", 2);
    let event = PipelineEvent::Primary {
        document: primary.clone(),
        pages: vec![text(&["no exercise here"]), text(&["CCINP abc"])],
    };
    assert_eq!(
        step(PipelineState::start(), event),
        (PipelineState::Done, PipelineAction::Save { document: primary })
    );
}

#[test]
fn run_with_numbers_fetches_and_merges() {
    let primary = document("A", 1);
    let event = PipelineEvent::Primary {
        document: primary.clone(),
        pages: vec![text(&["CCINP 12 foo", "CCINP 7", "CCINP 12"])],
    };
    let (state, action) = step(PipelineState::start(), event);
    assert_eq!(state, PipelineState::AwaitingSecondary { primary: primary.clone() });
    assert_eq!(
        action,
        PipelineAction::Fetch { locator: "https://ccinp.mpsi1.fr/12,7.pdf".to_string() }
    );
    let (state, action) = step(state, PipelineEvent::Secondary { document: document("B", 2) });
    assert_eq!(state, PipelineState::Done);
    match action {
        PipelineAction::Save { document: merged } => {
            assert_eq!(merged.page_count(), 3);
            assert_eq!(merged.find_page(0), primary.find_page(0));
            assert_eq!(merged.object_count(), primary.object_count() + 4);
        },
        other => panic!("unexpected action {:?}", other),
    }
}

#[test]
fn failed_fetch_of_the_secondary_gives_no_output() {
    let state = PipelineState::AwaitingSecondary { primary: document("A", 1) };
    assert_eq!(step(state, PipelineEvent::Unavailable), fail(PipelineError::Fetch(Stage::Secondary)));
}

#[test]
fn unreadable_secondary_gives_no_output() {
    let state = PipelineState::AwaitingSecondary { primary: document("A", 1) };
    assert_eq!(step(state, PipelineEvent::Unreadable), fail(PipelineError::Parse(Stage::Secondary)));
}

#[test]
fn failed_primary_gives_no_output() {
    assert_eq!(
        step(PipelineState::start(), PipelineEvent::Unavailable),
        fail(PipelineError::Fetch(Stage::Primary))
    );
    assert_eq!(
        step(PipelineState::start(), PipelineEvent::Unreadable),
        fail(PipelineError::Parse(Stage::Primary))
    );
}

#[test]
fn unreadable_page_ends_the_run() {
    let event = PipelineEvent::Primary {
        document: document("A", 2),
        pages: vec![text(&["CCINP 1"]), PageScan::Unreadable],
    };
    assert_eq!(
        step(PipelineState::start(), event),
        fail(PipelineError::Extraction(ExtractionError { page: 1 }))
    );
}

#[test]
fn failed_merge_ends_the_run() {
    let mut secondary = Document::new();
    let page = secondary
        .add_object(IndirectObject {
            kind: ObjectKind::Dictionary,
            parent: None,
            entries: vec![Entry { key: "Contents".to_string(), value: Slot::Ref(3) }],
            stream: vec![],
        })
        .unwrap();
    secondary.append_page(page).unwrap();
    let state = PipelineState::AwaitingSecondary { primary: document("A", 1) };
    assert_eq!(
        step(state, PipelineEvent::Secondary { document: secondary.clone() }),
        fail(PipelineError::Merge(MergeError::Graft(GraftError::Dangling(3))))
    );
    assert_eq!(
        secondary_arrived(document("A", 1), &secondary),
        PipelineAction::Fail { error: PipelineError::Merge(MergeError::Graft(GraftError::Dangling(3))) }
    );
}

#[test]
fn events_out_of_turn_end_the_run() {
    assert_eq!(
        step(PipelineState::start(), PipelineEvent::Secondary { document: document("B", 1) }),
        fail(PipelineError::OutOfTurn)
    );
    let waiting = PipelineState::AwaitingSecondary { primary: document("A", 1) };
    assert_eq!(
        step(waiting, PipelineEvent::Primary { document: document("A", 1), pages: vec![] }),
        fail(PipelineError::OutOfTurn)
    );
    assert_eq!(step(PipelineState::Done, PipelineEvent::Unavailable), fail(PipelineError::OutOfTurn));
    assert_eq!(step(PipelineState::Done, PipelineEvent::Unreadable), fail(PipelineError::OutOfTurn));
}

#[test]
fn arrival_of_the_primary() {
    let primary = document("A", 1);
    assert_eq!(
        primary_arrived(primary.clone(), vec![]),
        (PipelineState::Done, PipelineAction::Save { document: primary.clone() })
    );
    assert_eq!(
        primary_arrived(primary.clone(), vec![text(&["CCINP 3"])]),
        (
            PipelineState::AwaitingSecondary { primary },
            PipelineAction::Fetch { locator: "https://ccinp.mpsi1.fr/3.pdf".to_string() }
        )
    );
}
