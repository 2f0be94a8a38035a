use std::collections::hash_map::DefaultHasher;
use std::hash::{Hash, Hasher};
use wiki_bfs::graph::{calculate_hash, Graph, Node, StepOutcome};
use wiki_bfs::wiki_nav::TitleError;

const START: &str = "https://en.wikipedia.org/wiki/Start_Page";

fn std_hash(s: &str) -> u64 {
    let mut hasher = DefaultHasher::new();
    s.hash(&mut hasher);
    hasher.finish()
}

fn queue_of(g: &Graph) -> Vec<u64> {
    g.queue.iter().copied().collect()
}

fn fetched(outcome: StepOutcome) -> Vec<(u64, String)> {
    match outcome {
        StepOutcome::Fetch(reqs) => reqs.into_iter().map(|r| (r.id, r.site)).collect(),
        StepOutcome::Found => panic!("the step found its target"),
    }
}

fn links(titles: &[&str]) -> Vec<String> {
    titles.iter().map(|t| t.to_string()).collect()
}

#[test]
fn calculate_hash_is_std_hash_of_str() {
    for s in ["", "Rust", "Albert Einstein", "Caf\u{e9}", "日本語", "a\u{0}b"] {
        assert_eq!(calculate_hash(s), std_hash(s), "title {:?}", s);
    }
}

#[test]
fn calculate_hash_tells_titles_apart() {
    assert_ne!(calculate_hash("Rust"), calculate_hash("rust"));
    assert_ne!(calculate_hash("ab"), calculate_hash("a"));
    assert_eq!(calculate_hash("Rust"), calculate_hash(&"Rust".to_string()));
}

#[test]
fn node_new_is_unvisited() {
    let n = Node::new("A".to_string(), Some(7), 3, 11);
    assert_eq!(n.parent_id, Some(7));
    assert_eq!(n.depth, 3);
    assert_eq!(n.site, "A");
    assert_eq!(n.id, 11);
    assert!(!n.visited);
}

#[test]
fn new_graph_holds_only_the_start_page() {
    let g = Graph::new(START.to_string(), Some(5));
    let h = calculate_hash("Start Page");
    assert_eq!(queue_of(&g), vec![h]);
    assert_eq!(g.nodes.len(), 1);
    assert!(g.hash_queue.contains(&h));
    let root = &g.nodes[&h];
    assert_eq!(root.site, "Start Page");
    assert_eq!(root.parent_id, None);
    assert_eq!(root.depth, 0);
    assert!(!root.visited);
    assert_eq!(g.step, 0);
    assert_eq!(g.depth, 0);
    assert_eq!(g.destination, None);
    assert_eq!(g.end_hash, 5);
}

#[test]
fn new_graph_without_target_has_end_hash_zero() {
    assert_eq!(Graph::new(START.to_string(), None).end_hash, 0);
}

#[test]
fn try_new_reports_bad_urls() {
    assert!(matches!(Graph::try_new("no url".to_string(), None), Err(TitleError::InvalidUrl(_))));
    assert!(matches!(Graph::try_new("mailto:x@y.z".to_string(), None), Err(TitleError::InvalidPath)));
    let g = Graph::try_new(START.to_string(), None).ok().unwrap();
    assert_eq!(g.nodes[&calculate_hash("Start Page")].site, "Start Page");
}

#[test]
fn unidirectional_step_without_target_does_nothing() {
    let mut g = Graph::new(START.to_string(), None);
    let before = queue_of(&g);
    assert!(fetched(g.step_unidir()).is_empty());
    assert_eq!(queue_of(&g), before);
    assert_eq!(g.step, 0);
    assert!(!g.nodes[&before[0]].visited);
}

#[test]
fn first_step_visits_the_start_page() {
    let mut g = Graph::new(START.to_string(), Some(calculate_hash("Target")));
    let h = calculate_hash("Start Page");
    assert_eq!(fetched(g.step_unidir()), vec![(h, "Start Page".to_string())]);
    assert!(g.nodes[&h].visited);
    assert!(queue_of(&g).is_empty());
    assert!(g.hash_queue.is_empty());
    assert_eq!(g.step, 1);
    assert_eq!(g.depth, 0);
}

#[test]
fn step_finds_the_start_page_when_it_is_the_target() {
    let h = calculate_hash("Start Page");
    let mut g = Graph::new(START.to_string(), Some(h));
    assert!(matches!(g.step_unidir(), StepOutcome::Found));
    assert_eq!(g.destination, Some(h));
    assert_eq!(g.step, 1);
    assert_eq!(g.get_path(), vec!["Start Page".to_string()]);
}

#[test]
fn add_links_queues_new_pages_once() {
    let mut g = Graph::new(START.to_string(), Some(calculate_hash("Target")));
    let root = calculate_hash("Start Page");
    g.step_unidir();
    g.add_links(root, links(&["A", "B", "A", "Start Page"]));
    let (a, b) = (calculate_hash("A"), calculate_hash("B"));
    assert_eq!(queue_of(&g), vec![a, b]);
    assert_eq!(g.nodes.len(), 3);
    assert_eq!(g.nodes[&a].parent_id, Some(root));
    assert_eq!(g.nodes[&a].depth, 1);
    assert_eq!(g.nodes[&b].site, "B");
    assert!(!g.nodes[&b].visited);
    // Links to known pages are dropped.
    g.add_links(root, links(&["B", "C"]));
    let c = calculate_hash("C");
    assert_eq!(queue_of(&g), vec![a, b, c]);
    assert_eq!(g.nodes.len(), 4);
}

#[test]
fn search_runs_to_the_target_and_gives_its_path() {
    let target = calculate_hash("Target");
    let mut g = Graph::new(START.to_string(), Some(target));
    let root = calculate_hash("Start Page");
    assert_eq!(fetched(g.step_unidir()).len(), 1);
    g.add_links(root, links(&["A", "B"]));
    let reqs = fetched(g.step_unidir());
    let (a, b) = (calculate_hash("A"), calculate_hash("B"));
    assert_eq!(reqs, vec![(a, "A".to_string()), (b, "B".to_string())]);
    assert_eq!(g.depth, 1);
    assert_eq!(g.step, 3);
    g.add_links(b, links(&["Target", "A"]));
    g.add_links(a, links(&["Other"]));
    assert_eq!(g.nodes[&target].depth, 2);
    assert_eq!(g.nodes[&target].parent_id, Some(b));
    assert!(matches!(g.step_unidir(), StepOutcome::Found));
    assert_eq!(g.destination, Some(target));
    assert_eq!(g.step, 4);
    // The page after the target stays queued.
    assert_eq!(queue_of(&g), vec![calculate_hash("Other")]);
    assert_eq!(g.get_path(), links(&["Start Page", "B", "Target"]));
}

#[test]
fn a_step_takes_at_most_ten_pages() {
    let mut g = Graph::new(START.to_string(), Some(calculate_hash("Nowhere")));
    let root = calculate_hash("Start Page");
    g.step_unidir();
    let titles: Vec<String> = (0..13).map(|i| format!("P{}", i)).collect();
    g.add_links(root, titles.clone());
    let reqs = fetched(g.step_unidir());
    assert_eq!(reqs.len(), 10);
    assert_eq!(reqs[0].1, "P0");
    assert_eq!(reqs[9].1, "P9");
    assert_eq!(queue_of(&g).len(), 3);
    assert_eq!(g.step, 11);
    assert_eq!(fetched(g.step_unidir()).len(), 3);
    assert!(fetched(g.step_unidir()).is_empty());
    assert_eq!(g.step, 14);
}

#[test]
fn pages_taken_before_the_target_are_dropped() {
    let target = calculate_hash("T");
    let mut g = Graph::new(START.to_string(), Some(target));
    let root = calculate_hash("Start Page");
    g.step_unidir();
    g.add_links(root, links(&["X", "T", "Y"]));
    assert!(matches!(g.step_unidir(), StepOutcome::Found));
    assert_eq!(queue_of(&g), vec![calculate_hash("Y")]);
    assert!(!g.nodes[&calculate_hash("X")].visited);
    assert_eq!(g.step, 3);
}

#[test]
fn depth_rises_with_the_pages_visited() {
    let mut g = Graph::new(START.to_string(), Some(1));
    let root = calculate_hash("Start Page");
    g.step_unidir();
    g.add_links(root, links(&["A"]));
    let a = calculate_hash("A");
    g.step_unidir();
    assert_eq!(g.depth, 1);
    g.add_links(a, links(&["B"]));
    let b = calculate_hash("B");
    assert_eq!(g.nodes[&b].depth, 2);
    g.step_unidir();
    assert_eq!(g.depth, 2);
    g.destination = Some(b);
    assert_eq!(g.get_path(), links(&["Start Page", "A", "B"]));
}

#[test]
fn get_path_without_destination_is_empty() {
    let g = Graph::new(START.to_string(), None);
    assert!(g.get_path().is_empty());
}

#[test]
fn get_path_to_an_unknown_page_is_empty() {
    let mut g = Graph::new(START.to_string(), None);
    g.destination = Some(12345);
    assert!(g.get_path().is_empty());
}

#[test]
fn bidirectional_step_stops_at_a_page_of_the_other_half() {
    let mut s = Graph::new(START.to_string(), None);
    let e = Graph::new("https://en.wikipedia.org/wiki/End_Page".to_string(), None);
    let root = calculate_hash("Start Page");
    assert_eq!(fetched(s.step_bidir(&e)).len(), 1);
    s.add_links(root, links(&["A", "End Page", "B"]));
    assert!(matches!(s.step_bidir(&e), StepOutcome::Found));
    let meet = calculate_hash("End Page");
    assert_eq!(s.destination, Some(meet));
    assert_eq!(s.step, 3);
    assert_eq!(queue_of(&s), vec![calculate_hash("B")]);
    assert_eq!(s.get_path(), links(&["Start Page", "End Page"]));
}

#[test]
fn a_page_is_asked_for_once() {
    let mut g = Graph::new(START.to_string(), Some(calculate_hash("Target")));
    let root = calculate_hash("Start Page");
    assert_eq!(fetched(g.step_unidir()), vec![(root, "Start Page".to_string())]);
    g.add_links(root, links(&["A"]));
    let a = calculate_hash("A");
    assert_eq!(fetched(g.step_unidir()), vec![(a, "A".to_string())]);
    // Links back to pages already found queue nothing.
    g.add_links(a, links(&["Start Page", "A"]));
    assert!(queue_of(&g).is_empty());
    assert!(fetched(g.step_unidir()).is_empty());
    assert!(g.nodes[&root].visited && g.nodes[&a].visited);
}

#[test]
fn step_fits_reports_counter_room() {
    let mut g = Graph::new(START.to_string(), Some(calculate_hash("T")));
    assert!(g.step_fits_unidir());
    g.step = u32::MAX;
    // The next step takes the start page: one more than the counter holds.
    assert!(!g.step_fits_unidir());
    let mut empty = Graph::new(START.to_string(), Some(calculate_hash("T")));
    empty.step_unidir();
    empty.step = u32::MAX;
    assert!(empty.step_fits_unidir());
    let mut idle = Graph::new(START.to_string(), None);
    idle.step = u32::MAX;
    assert!(idle.step_fits_unidir());
    let other = Graph::new("https://en.wikipedia.org/wiki/Start_Page".to_string(), None);
    let mut h = Graph::new(START.to_string(), None);
    h.step = u32::MAX;
    assert!(!h.step_fits_bidir(&other));
}

#[test]
fn links_fit_only_matters_at_the_greatest_depth() {
    let mut g = Graph::new(START.to_string(), None);
    let root = calculate_hash("Start Page");
    g.step_bidir(&Graph::new("https://en.wikipedia.org/wiki/Elsewhere".to_string(), None));
    assert!(g.links_fit(&links(&["A"])));
    g.depth = u16::MAX;
    assert!(!g.links_fit(&links(&["A"])));
    assert!(g.links_fit(&links(&["Start Page"])));
    assert!(g.links_fit(&vec![]));
    assert!(g.nodes[&root].visited);
}

#[test]
fn queued_pages_are_unvisited_and_parents_visited() {
    let mut g = Graph::new(START.to_string(), Some(calculate_hash("Nowhere")));
    let root = calculate_hash("Start Page");
    g.step_unidir();
    g.add_links(root, links(&["A", "B"]));
    for id in queue_of(&g) {
        assert!(!g.nodes[&id].visited);
        let parent = g.nodes[&id].parent_id.unwrap();
        assert!(g.nodes[&parent].visited);
        assert!(g.nodes[&parent].depth < g.nodes[&id].depth);
    }
    assert_eq!(g.nodes[&root].parent_id, None);
    assert_eq!(g.nodes[&root].depth, 0);
}

#[test]
fn depth_is_that_of_the_deepest_visited_page() {
    let mut g = Graph::new(START.to_string(), Some(calculate_hash("Nowhere")));
    let root = calculate_hash("Start Page");
    g.step_unidir();
    assert_eq!(g.depth, 0);
    g.add_links(root, links(&["A"]));
    assert_eq!(g.depth, 0);
    g.step_unidir();
    let deepest = g.nodes.values().filter(|n| n.visited).map(|n| n.depth).max().unwrap();
    assert_eq!(g.depth, deepest);
    assert_eq!(g.depth, 1);
}

#[test]
fn bidirectional_step_ignores_end_hash() {
    let goal = Graph::new("https://en.wikipedia.org/wiki/End_Page".to_string(), None);
    let mut g1 = Graph::new(START.to_string(), None);
    let mut g2 = Graph::new(START.to_string(), Some(calculate_hash("Start Page")));
    let root = calculate_hash("Start Page");
    let r1 = fetched(g1.step_bidir(&goal));
    let r2 = fetched(g2.step_bidir(&goal));
    assert_eq!(r1, r2);
    assert_eq!(g1.end_hash, 0);
    assert_eq!(g2.end_hash, root);
    assert_eq!(queue_of(&g1), queue_of(&g2));
    assert_eq!(g1.step, g2.step);
    assert_eq!(g1.depth, g2.depth);
    assert_eq!(g1.destination, g2.destination);
}

#[test]
fn pages_only_grow_and_stay_visited() {
    let mut g = Graph::new(START.to_string(), Some(calculate_hash("Nowhere")));
    let root = calculate_hash("Start Page");
    g.step_unidir();
    let before = g.nodes.clone();
    let (step, depth) = (g.step, g.depth);
    g.add_links(root, links(&["A", "B"]));
    g.step_unidir();
    for (k, n) in before.iter() {
        let m = &g.nodes[k];
        assert_eq!((m.id, &m.site, m.parent_id, m.depth), (n.id, &n.site, n.parent_id, n.depth));
        assert!(!n.visited || m.visited);
    }
    assert!(g.step >= step && g.depth >= depth);
}
