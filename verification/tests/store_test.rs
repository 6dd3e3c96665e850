use todo_swamp::matcher::split_into_words;
use todo_swamp::run_query;
use todo_swamp::types::u64_to_string;
use todo_swamp::Description;
use todo_swamp::Index;
use todo_swamp::Query;
use todo_swamp::QueryResult;
use todo_swamp::SearchParams;
use todo_swamp::SearchWord;
use todo_swamp::Tag;
use todo_swamp::TodoList;
use todo_swamp::{contains_word, matches_word};

fn add(tl: &mut TodoList, desc: &str, tags: Vec<&str>) -> u64 {
    let item = tl.push(Description::new(desc), Tag::from_strings(tags));
    item.index.value()
}

fn words_query(words: Vec<&str>) -> SearchParams {
    SearchParams {
        words: words.into_iter().map(SearchWord::new).collect(),
        tags: vec![],
    }
}

fn tags_query(tags: Vec<&str>) -> SearchParams {
    SearchParams {
        words: vec![],
        tags: tags.into_iter().map(Tag::new).collect(),
    }
}

fn grocery_list() -> TodoList {
    let mut tl = TodoList::new();
    assert_eq!(add(&mut tl, "buy bread", vec!["groceries"]), 0);
    assert_eq!(add(&mut tl, "buy milk", vec!["groceries"]), 1);
    assert_eq!(add(&mut tl, "call parents", vec!["relatives"]), 2);
    tl
}

fn indices(tl: &TodoList, sp: &SearchParams) -> Vec<u64> {
    tl.search(sp).iter().map(|it| it.index.value()).collect()
}

#[test]
fn matcher_subsequence_not_substring() {
    // In-order, non-contiguous characters match.
    assert!(matches_word("br", "bread"));
    assert!(matches_word("br", "brainstorm"));
    assert!(matches_word("bd", "bread"));
    assert!(matches_word("bread", "bread"));
    // Characters out of order do not.
    assert!(matches_word("ab", "cab"));
    assert!(!matches_word("ba", "cab"));
    // Absent characters do not.
    assert!(!matches_word("xyz", "anything-without-those-letters-in-order"));
    // A target longer than the candidate cannot match.
    assert!(!matches_word("bread", "brea"));
    // The empty target matches everything.
    assert!(matches_word("", "bread"));
    assert!(matches_word("", ""));
}

#[test]
fn matcher_contains_word_splits_on_spaces() {
    assert!(contains_word("a", "call parents"));
    assert!(contains_word("a", "buy bread"));
    assert!(!contains_word("a", "buy milk"));
    assert!(contains_word("milk", "buy milk"));
    // Subsequences may not span across the space.
    assert!(!contains_word("bm", "buy milk"));
    // The empty text still yields one (empty) token, matched by an empty target.
    assert!(contains_word("", ""));
    assert!(!contains_word("a", ""));
}

#[test]
fn split_words_is_a_naive_space_split() {
    let ws = split_into_words("buy fresh bread");
    assert_eq!(ws, vec!["buy", "fresh", "bread"]);
    let ws = split_into_words("a  b");
    assert_eq!(ws, vec!["a", "", "b"]);
    let ws = split_into_words("");
    assert_eq!(ws, vec![""]);
}

#[test]
fn scenario_a_tag_and_word_search() {
    let tl = grocery_list();
    assert_eq!(indices(&tl, &tags_query(vec!["groceries"])), vec![0, 1]);
    assert_eq!(indices(&tl, &words_query(vec!["buy"])), vec![0, 1]);
    // "a" is a subsequence of "bread" (item 0) and of "call"/"parents"
    // (item 2), but of no word of "buy milk".
    assert_eq!(indices(&tl, &words_query(vec!["a"])), vec![0, 2]);
}

#[test]
fn scenario_b_completion_shrinks_results() {
    let mut tl = grocery_list();
    let done = tl.done_with_index(Index::new(0));
    assert_eq!(done.map(|i| i.value()), Some(0));
    assert_eq!(indices(&tl, &words_query(vec!["a"])), vec![2]);
    assert_eq!(indices(&tl, &tags_query(vec!["groceries"])), vec![1]);
}

#[test]
fn scenario_c_unknown_index_changes_nothing() {
    let mut tl = grocery_list();
    assert_eq!(tl.done_with_index(Index::new(999)), None);
    assert_eq!(tl.len(), 3);
    assert_eq!(indices(&tl, &tags_query(vec!["groceries"])), vec![0, 1]);
    assert_eq!(indices(&tl, &words_query(vec!["a"])), vec![0, 2]);
}

#[test]
fn completion_is_idempotent() {
    let mut tl = grocery_list();
    let first = tl.done_with_index(Index::new(1));
    let again = tl.done_with_index(Index::new(1));
    assert_eq!(first, again);
    assert_eq!(first.map(|i| i.value()), Some(1));
    assert_eq!(indices(&tl, &tags_query(vec!["groceries"])), vec![0]);
}

#[test]
fn empty_query_matches_nothing() {
    let tl = grocery_list();
    let sp = SearchParams {
        words: vec![],
        tags: vec![],
    };
    assert!(tl.search(&sp).is_empty());
}

#[test]
fn strategies_agree_on_small_logs() {
    let mut tl = grocery_list();
    tl.done_with_index(Index::new(0));
    for sp in [
        tags_query(vec!["groceries"]),
        tags_query(vec!["relatives", "groceries"]),
        words_query(vec!["a"]),
        words_query(vec!["buy", "call"]),
        words_query(vec!["zz"]),
        SearchParams {
            words: vec![SearchWord::new("milk")],
            tags: vec![Tag::new("relatives")],
        },
    ] {
        let linear = tl.search_iter(&sp);
        let indexed = tl.search_with_index(&sp);
        assert_eq!(linear, indexed);
    }
}

#[test]
fn strategies_agree_across_the_threshold() {
    let mut tl = TodoList::new();
    for i in 0..1600u64 {
        let tag = if i % 2 == 0 { "even" } else { "odd" };
        let desc = format!("task number {}", u64_to_string(i));
        add(&mut tl, &desc, vec![tag, "all"]);
    }
    for i in 0..100u64 {
        assert!(tl.done_with_index(Index::new(i * 7)).is_some());
    }
    for sp in [
        tags_query(vec!["even"]),
        tags_query(vec!["all"]),
        words_query(vec!["number"]),
        words_query(vec!["17"]),
    ] {
        // At this size `search` takes the indexed strategy; both must agree.
        let linear = tl.search_iter(&sp);
        let chosen = tl.search(&sp);
        assert_eq!(linear, chosen);
    }
}

#[test]
fn search_results_are_ascending_and_deduplicated() {
    let mut tl = TodoList::new();
    // Repeated tags and repeated description words file the index once per
    // occurrence, yet each matching item is reported exactly once.
    add(&mut tl, "tea tea tea", vec!["pantry", "pantry"]);
    add(&mut tl, "coffee", vec!["pantry"]);
    let sp = SearchParams {
        words: vec![SearchWord::new("tea")],
        tags: vec![Tag::new("pantry")],
    };
    assert_eq!(indices(&tl, &sp), vec![0, 1]);
    let indexed = tl.search_with_index(&sp);
    let got: Vec<u64> = indexed.iter().map(|it| it.index.value()).collect();
    assert_eq!(got, vec![0, 1]);
}

#[test]
fn render_matches_the_documented_form() {
    let mut tl = TodoList::new();
    let item = tl.push(
        Description::new("buy bread"),
        Tag::from_strings(vec!["groceries", "urgent"]),
    );
    assert_eq!(item.render(), "0 \"buy bread\" #groceries #urgent");
    let item = tl.push(Description::new("rest"), vec![]);
    assert_eq!(item.render(), "1 \"rest\" ");
    assert_eq!(Index::new(1500).render(), "1500");
    assert_eq!(u64_to_string(0), "0");
    assert_eq!(u64_to_string(90210), "90210");
    assert_eq!(Tag::new("home").render(), "#home");
}

#[test]
fn run_query_reports_results_and_errors() {
    let mut tl = TodoList::new();
    let r = run_query(
        Query::Add(Description::new("buy bread"), Tag::from_strings(vec!["groceries"])),
        &mut tl,
    );
    match r {
        Ok(QueryResult::Added(item)) => {
            assert_eq!(item.index.value(), 0);
            assert_eq!(item.description.value(), "buy bread");
            assert!(!item.done);
        }
        _ => panic!("add must succeed"),
    }

    let r = run_query(Query::Done(Index::new(0)), &mut tl);
    assert!(matches!(r, Ok(QueryResult::Done)));

    let r = run_query(Query::Done(Index::new(5)), &mut tl);
    match r {
        Err(e) => assert_eq!(e.0, "item does not exist"),
        _ => panic!("completing an unknown index must fail"),
    }

    let r = run_query(Query::Search(tags_query(vec!["groceries"])), &mut tl);
    match r {
        Ok(QueryResult::Found(items)) => assert!(items.is_empty()),
        _ => panic!("search must succeed"),
    }
}

#[test]
fn value_types_round_trip() {
    assert_eq!(Index::new(7).value(), 7);
    assert_eq!(Description::new("x y").value(), "x y");
    assert_eq!(Tag::new("t").value(), "t");
    let tags = Tag::from_strings(vec!["a", "b"]);
    assert_eq!(tags.len(), 2);
    assert_eq!(tags[0].value(), "a");
    assert_eq!(tags[1].value(), "b");
    let tl = TodoList::with_capacity(64);
    assert_eq!(tl.len(), 0);
}

#[test]
fn duplicate_keys_survive_completion_bookkeeping() {
    let mut tl = TodoList::new();
    // Each occurrence files the index once; completion withdraws each
    // occurrence exactly once, and a bucket left empty drops its key.
    add(&mut tl, "tea tea tea", vec!["dup", "dup"]);
    add(&mut tl, "tea time", vec!["dup"]);
    assert_eq!(indices(&tl, &tags_query(vec!["dup"])), vec![0, 1]);
    assert_eq!(indices(&tl, &words_query(vec!["tea"])), vec![0, 1]);
    assert!(tl.done_with_index(Index::new(0)).is_some());
    assert_eq!(indices(&tl, &tags_query(vec!["dup"])), vec![1]);
    assert_eq!(indices(&tl, &words_query(vec!["tea"])), vec![1]);
    assert!(tl.done_with_index(Index::new(1)).is_some());
    assert_eq!(indices(&tl, &tags_query(vec!["dup"])), Vec::<u64>::new());
    assert_eq!(indices(&tl, &words_query(vec!["tea"])), Vec::<u64>::new());
}
