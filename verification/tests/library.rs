use craft_client::element::{Element, SerializedElement};
use craft_client::order::{canonical_key, str_eq, str_le};
use craft_client::pairs::{Pair, PairStore};
use craft_client::sampler::{
    candidate_from_draws, sample_pair_uniform, sample_pair_weighted, weight_of, weights_of_store,
};
use craft_client::session::{interpret_response, CraftState, StepLog};
use craft_client::url::{pair_url, percent_encode};
use craft_client::store::ElementStore;

fn element(result: &str, emoji: &str, is_new: bool) -> Element {
    Element { result: result.to_string(), emoji: emoji.to_string(), is_new }
}

#[test]
fn canonical_key_is_commutative() {
    let ab = canonical_key("Water", "Fire");
    let ba = canonical_key("Fire", "Water");
    assert_eq!(ab.0, ba.0);
    assert_eq!(ab.1, ba.1);
    assert_eq!(ab.0, "Fire");
    assert_eq!(ab.1, "Water");

    let same = canonical_key("Water", "Water");
    assert_eq!(same.0, "Water");
    assert_eq!(same.1, "Water");
}

#[test]
fn string_order_helpers() {
    assert!(str_le("a", "b"));
    assert!(!str_le("b", "a"));
    assert!(str_le("a", "a"));
    assert!(str_le("a", "ab"));
    assert!(!str_le("ab", "a"));
    assert!(str_eq("Water", "Water"));
    assert!(!str_eq("Water", "Fire"));
    assert!(!str_eq("Water", "Wate"));
}

#[test]
fn skip_logic_blocks_recorded_pairs() {
    let mut state = CraftState { elements: ElementStore::new(), pairs: PairStore::new() };
    state.elements.insert_new(element("Water", "💧", false));
    state.apply_outcome("Water", "Water", None);

    // The only possible pair is recorded, under both orders of the names,
    // so neither policy ever offers it again.
    assert!(state.pairs.contains("Water", "Water"));
    assert!(sample_pair_weighted(&state.elements, &state.pairs).is_none());
    assert!(sample_pair_uniform(&state.elements, &state.pairs).is_none());
}

#[test]
fn drawn_candidate_skips_recorded_pairs_in_either_order() {
    let mut state = CraftState { elements: ElementStore::new(), pairs: PairStore::new() };
    state.elements.insert_new(element("Fire", "🔥", false));
    state.elements.insert_new(element("Water", "💧", false));

    let (first, second) =
        candidate_from_draws(&state.elements, &state.pairs, 1, 0).expect("nothing tried yet");
    assert_eq!(first, "Water");
    assert_eq!(second, "Fire");

    state.apply_outcome(&first, &second, None);

    // The unordered pair is recorded: no draw order offers it again.
    assert!(candidate_from_draws(&state.elements, &state.pairs, 1, 0).is_none());
    assert!(candidate_from_draws(&state.elements, &state.pairs, 0, 1).is_none());
    // Self-pairs were never tried and stay available.
    assert!(candidate_from_draws(&state.elements, &state.pairs, 0, 0).is_some());
    assert!(candidate_from_draws(&state.elements, &state.pairs, 1, 1).is_some());
}

#[test]
fn merge_is_idempotent() {
    let mut store = ElementStore::new();
    let batch = vec![
        element("Water", "💧", false),
        element("Fire", "🔥", false),
        element("Steam", "💨", true),
    ];
    let added = store.merge(&batch).expect("first merge succeeds");
    assert_eq!(added.len(), 3);
    assert_eq!(store.len(), 3);

    let batch_again = vec![
        element("Water", "💧", false),
        element("Fire", "🔥", false),
        element("Steam", "💨", true),
    ];
    let added_again = store.merge(&batch_again).expect("second merge raises no conflict");
    assert_eq!(added_again.len(), 0);
    assert_eq!(store.len(), 3);
}

#[test]
fn merge_conflict_leaves_store_untouched() {
    let mut store = ElementStore::new();
    store.insert_new(element("Water", "💧", false));
    store.insert_new(element("Fire", "🔥", false));

    let conflicting = vec![element("Earth", "🌍", false), element("Water", "🌊", false)];
    let err = store.merge(&conflicting).expect_err("differing emoji is a conflict");
    assert_eq!(err.existing.result, "Water");
    assert_eq!(err.existing.emoji, "💧");
    assert_eq!(err.incoming.emoji, "🌊");

    // Nothing was mutated, not even the non-conflicting entry before it.
    assert_eq!(store.len(), 2);
    assert!(store.get("Earth").is_none());
    assert_eq!(store.get("Water").unwrap().emoji, "💧");
}

#[test]
fn merge_conflict_on_discovery_flag() {
    let mut store = ElementStore::new();
    store.insert_new(element("Steam", "💨", true));
    let conflicting = vec![element("Steam", "💨", false)];
    assert!(store.merge(&conflicting).is_err());
    assert_eq!(store.len(), 1);
    assert!(store.get("Steam").unwrap().is_new);
}

#[test]
fn export_import_round_trip() {
    let imported = vec![
        SerializedElement { text: "Water".to_string(), emoji: "💧".to_string(), discovered: false },
        SerializedElement { text: "Steam".to_string(), emoji: "💨".to_string(), discovered: true },
    ];
    let as_elements: Vec<Element> = imported.into_iter().map(Element::from).collect();

    let mut store = ElementStore::new();
    store.merge(&as_elements).expect("import succeeds");

    // The export comes in ascending name order, whatever order the
    // import had: "Steam" sorts before "Water".
    let exported = store.export();
    assert_eq!(exported.len(), 2);
    assert_eq!(exported[0].text, "Steam");
    assert_eq!(exported[0].emoji, "💨");
    assert!(exported[0].discovered);
    assert_eq!(exported[1].text, "Water");
    assert_eq!(exported[1].emoji, "💧");
    assert!(!exported[1].discovered);

    // Importing the export again changes nothing and raises no conflict.
    let re_imported: Vec<Element> = exported.into_iter().map(Element::from).collect();
    let added = store.merge(&re_imported).expect("round trip raises no conflict");
    assert_eq!(added.len(), 0);
    assert_eq!(store.len(), 2);

    let exported_again = store.export();
    assert_eq!(exported_again.len(), 2);
    assert_eq!(exported_again[0].text, "Steam");
    assert_eq!(exported_again[1].text, "Water");
}

#[test]
fn export_sorts_by_name() {
    let mut store = ElementStore::new();
    store.insert_new(element("Water", "💧", false));
    store.insert_new(element("Fire", "🔥", false));
    store.insert_new(element("Steam", "💨", true));

    let exported = store.export();
    let names: Vec<&str> = exported.iter().map(|e| e.text.as_str()).collect();
    assert_eq!(names, vec!["Fire", "Steam", "Water"]);
}

#[test]
fn percent_encoding_exact_values() {
    assert_eq!(percent_encode("Water"), "Water");
    assert_eq!(
        percent_encode("AZaz09-._~"),
        "AZaz09-._~",
        "unreserved bytes stay as they are"
    );
    assert_eq!(percent_encode("A B"), "A%20B");
    assert_eq!(percent_encode("C&D=E"), "C%26D%3DE");
    assert_eq!(percent_encode("💧"), "%F0%9F%92%A7");
}

#[test]
fn pair_url_encodes_names() {
    assert_eq!(
        pair_url("A B", "C&D"),
        "https://neal.fun/api/infinite-craft/pair?first=A%20B&second=C%26D"
    );
}

#[test]
fn conversions_swap_field_names() {
    let e = element("Steam", "💨", true);
    let s = SerializedElement::from(e);
    assert_eq!(s.text, "Steam");
    assert_eq!(s.emoji, "💨");
    assert!(s.discovered);
    let back = Element::from(s);
    assert_eq!(back.result, "Steam");
    assert_eq!(back.emoji, "💨");
    assert!(back.is_new);
}

#[test]
fn discovery_iteration_updates_both_stores() {
    let mut state = CraftState { elements: ElementStore::new(), pairs: PairStore::new() };
    state.elements.insert_new(element("Water", "💧", false));

    let fetched = interpret_response(element("Steam", "💨", true));
    assert!(fetched.is_some());
    let report = state.apply_outcome("Water", "Water", fetched);

    let record = state.pairs.get("Water", "Water").expect("pair recorded");
    assert_eq!(record.first, "Water");
    assert_eq!(record.second, "Water");
    assert_eq!(record.result.as_deref(), Some("Steam"));

    let steam = state.elements.get("Steam").expect("element store gains Steam");
    assert_eq!(steam.emoji, "💨");
    assert!(steam.is_new);

    assert_eq!(report.log, StepLog::Discovery);
    assert_eq!(report.key_first, "Water");
    assert_eq!(report.key_second, "Water");
    assert_eq!(report.outcome.as_deref(), Some("Steam"));
    assert_eq!(report.new_element.expect("one insert to persist").result, "Steam");
}

#[test]
fn nothing_iteration_records_pair_only() {
    let mut state = CraftState { elements: ElementStore::new(), pairs: PairStore::new() };
    state.elements.insert_new(element("Water", "💧", false));
    state.elements.insert_new(element("Fire", "🔥", false));

    let fetched = interpret_response(element("Nothing", "", false));
    assert!(fetched.is_none());
    let report = state.apply_outcome("Water", "Fire", fetched);

    let record = state.pairs.get("Fire", "Water").expect("pair recorded under either order");
    assert_eq!(record.first, "Fire");
    assert_eq!(record.second, "Water");
    assert_eq!(record.result, None);

    assert_eq!(state.elements.len(), 2);
    assert_eq!(report.log, StepLog::NoResult);
    assert!(report.new_element.is_none());
    assert_eq!(report.outcome, None);
}

#[test]
fn known_result_is_not_reinserted() {
    let mut state = CraftState { elements: ElementStore::new(), pairs: PairStore::new() };
    state.elements.insert_new(element("Water", "💧", false));
    state.elements.insert_new(element("Steam", "💨", true));

    let report = state.apply_outcome("Water", "Steam", Some(element("Steam", "💨", false)));
    assert_eq!(report.log, StepLog::Known);
    assert!(report.new_element.is_none());
    assert_eq!(state.elements.len(), 2);
}

#[test]
fn new_to_store_result_logs_new_local() {
    let mut state = CraftState { elements: ElementStore::new(), pairs: PairStore::new() };
    state.elements.insert_new(element("Water", "💧", false));

    let report = state.apply_outcome("Water", "Water", Some(element("Lake", "🏞️", false)));
    assert_eq!(report.log, StepLog::NewLocal);
    assert_eq!(report.new_element.expect("insert to persist").result, "Lake");
    assert!(state.elements.get("Lake").is_some());
}

#[test]
fn weight_formula_exact_values() {
    assert_eq!(weight_of("a"), 11);
    assert_eq!(weight_of("ab"), 10);
    assert_eq!(weight_of("abcdefghi"), 3);
    assert_eq!(weight_of("abcdefghij"), 2);
    assert_eq!(weight_of("verylongname"), 2);
    assert_eq!(weight_of(""), 12);
}

#[test]
fn weights_follow_store_order() {
    let mut store = ElementStore::new();
    store.insert_new(element("a", "x", false));
    store.insert_new(element("verylongname", "y", false));
    let w = weights_of_store(&store);
    assert_eq!(w, vec![11, 2]);
    assert_eq!(store.element_at(0).result, "a");
    assert_eq!(store.element_at(1).result, "verylongname");
}

#[test]
fn weighted_sampler_prefers_short_names() {
    let mut elements = ElementStore::new();
    elements.insert_new(element("a", "x", false));
    elements.insert_new(element("verylongname", "y", false));
    let pairs = PairStore::new();

    let mut short_draws = 0u32;
    let mut long_draws = 0u32;
    for _ in 0..400 {
        let (first, _) = sample_pair_weighted(&elements, &pairs).expect("fresh pair exists");
        if first == "a" {
            short_draws += 1;
        } else {
            long_draws += 1;
        }
    }
    // "a" weighs 11, "verylongname" weighs 2: the short name must dominate
    // in the long run (expected ~85% of 400 draws).
    assert!(short_draws > long_draws);
}

#[test]
fn uniform_sampler_returns_stored_names() {
    let mut elements = ElementStore::new();
    elements.insert_new(element("Water", "💧", false));
    let pairs = PairStore::new();
    let (first, second) = sample_pair_uniform(&elements, &pairs).expect("nothing tried yet");
    assert_eq!(first, "Water");
    assert_eq!(second, "Water");
}

#[test]
fn pair_url_shape() {
    assert_eq!(
        pair_url("Water", "Fire"),
        "https://neal.fun/api/infinite-craft/pair?first=Water&second=Fire"
    );
}

#[test]
fn interpret_response_passes_real_elements() {
    let r = interpret_response(element("Steam", "💨", true)).expect("a real element");
    assert_eq!(r.result, "Steam");
    assert_eq!(r.emoji, "💨");
    assert!(r.is_new);
}

#[test]
fn element_store_from_rows_first_wins() {
    let rows = vec![
        element("Water", "💧", false),
        element("Fire", "🔥", false),
        element("Water", "🌊", true),
    ];
    let store = ElementStore::from_rows(&rows);
    assert_eq!(store.len(), 2);
    assert_eq!(store.get("Water").unwrap().emoji, "💧");
    assert!(store.get("Fire").is_some());
}

#[test]
fn pair_store_from_rows_canonicalizes() {
    let rows = vec![
        Pair {
            first: "Water".to_string(),
            second: "Fire".to_string(),
            result: Some("Steam".to_string()),
        },
        Pair { first: "Fire".to_string(), second: "Water".to_string(), result: None },
    ];
    let store = PairStore::from_rows(&rows);
    assert_eq!(store.len(), 1);
    let record = store.get("Fire", "Water").expect("one canonical record");
    assert_eq!(record.first, "Fire");
    assert_eq!(record.second, "Water");
    assert_eq!(record.result.as_deref(), Some("Steam"));
    assert!(store.contains("Water", "Fire"));
}

#[test]
fn merge_reports_added_elements_in_order() {
    let mut store = ElementStore::new();
    store.insert_new(element("Water", "💧", false));
    let batch = vec![
        element("Water", "💧", false),
        element("Earth", "🌍", false),
        element("Wind", "🌬️", false),
    ];
    let added = store.merge(&batch).expect("no conflict");
    assert_eq!(added.len(), 2);
    assert_eq!(added[0].result, "Earth");
    assert_eq!(added[1].result, "Wind");
}
