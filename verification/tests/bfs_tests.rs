use wiki_bfs::bfs::{join_paths, BiSearch, Side};
use wiki_bfs::graph::{calculate_hash, Graph, StepOutcome};

fn strings(v: &[&str]) -> Vec<String> {
    v.iter().map(|s| s.to_string()).collect()
}

#[test]
fn joins_halves_at_the_meeting_page() {
    let s = strings(&["Start", "A", "Meet"]);
    let e = strings(&["End", "B", "Meet"]);
    assert_eq!(join_paths(&s, &e), strings(&["Start", "A", "Meet", "B", "End"]));
}

#[test]
fn joined_length_is_one_less_than_the_halves() {
    let s = strings(&["Start", "Meet"]);
    let e = strings(&["End", "X", "Y", "Meet"]);
    let full = join_paths(&s, &e);
    assert_eq!(full.len(), s.len() + e.len() - 1);
    assert_eq!(full.first().unwrap(), "Start");
    assert_eq!(full.last().unwrap(), "End");
}

#[test]
fn an_empty_end_half_adds_nothing() {
    let s = strings(&["Start", "Meet"]);
    assert_eq!(join_paths(&s, &vec![]), s);
}

#[test]
fn an_end_half_of_one_page_adds_nothing() {
    let s = strings(&["Start", "Meet"]);
    assert_eq!(join_paths(&s, &strings(&["Meet"])), s);
}

#[test]
fn both_halves_empty() {
    assert!(join_paths(&vec![], &vec![]).is_empty());
}

fn fetch_ids(outcome: &StepOutcome) -> Vec<u64> {
    match outcome {
        StepOutcome::Fetch(reqs) => reqs.iter().map(|r| r.id).collect(),
        StepOutcome::Found => vec![],
    }
}

#[test]
fn halves_take_turns_and_share_the_meeting_page() {
    let start = Graph::new("https://en.wikipedia.org/wiki/Start".to_string(), None);
    let end = Graph::new("https://en.wikipedia.org/wiki/End".to_string(), None);
    let mut search = BiSearch::new(start, end);
    let (s_root, e_root) = (calculate_hash("Start"), calculate_hash("End"));

    let (side, outcome) = search.step();
    assert_eq!(side, Side::Start);
    assert_eq!(fetch_ids(&outcome), vec![s_root]);
    search.start.add_links(s_root, strings(&["Middle", "Other"]));

    let (side, outcome) = search.step();
    assert_eq!(side, Side::End);
    assert_eq!(fetch_ids(&outcome), vec![e_root]);
    search.end.add_links(e_root, strings(&["Middle"]));

    let (side, outcome) = search.step();
    assert_eq!(side, Side::Start);
    assert!(matches!(outcome, StepOutcome::Found));
    let meet = calculate_hash("Middle");
    assert_eq!(search.start.destination, Some(meet));
    assert_eq!(search.end.destination, Some(meet));
    assert!(search.start_turn == false);

    let path_s = search.start.get_path();
    let path_e = search.end.get_path();
    assert_eq!(path_s, strings(&["Start", "Middle"]));
    assert_eq!(path_e, strings(&["End", "Middle"]));
    assert_eq!(join_paths(&path_s, &path_e), strings(&["Start", "Middle", "End"]));
}

#[test]
fn the_end_half_can_find_the_meeting_page() {
    let start = Graph::new("https://en.wikipedia.org/wiki/Start".to_string(), None);
    let end = Graph::new("https://en.wikipedia.org/wiki/End".to_string(), None);
    let mut search = BiSearch::new(start, end);
    let (s_root, e_root) = (calculate_hash("Start"), calculate_hash("End"));
    search.step();
    search.start.add_links(s_root, strings(&["Left"]));
    search.step();
    search.end.add_links(e_root, strings(&["Start"]));
    // The start half visits "Left", which is no page of the end half.
    let (_, outcome) = search.step();
    assert_eq!(fetch_ids(&outcome), vec![calculate_hash("Left")]);
    // The end half reaches the start page itself.
    let (side, outcome) = search.step();
    assert_eq!(side, Side::End);
    assert!(matches!(outcome, StepOutcome::Found));
    assert_eq!(search.start.destination, Some(s_root));
    assert_eq!(search.end.destination, Some(s_root));
    assert_eq!(
        join_paths(&search.start.get_path(), &search.end.get_path()),
        strings(&["Start", "End"])
    );
}
