use boggle::search::boggle;
use std::collections::HashMap;
use std::collections::HashSet;

fn to_map(found: Vec<(String, Vec<(u8, u8)>)>) -> HashMap<String, Vec<(u8, u8)>> {
    found.into_iter().collect()
}

fn words_legal(found: &HashMap<String, Vec<(u8, u8)>>, words: &[String]) -> bool {
    let word_set: HashSet<String> = words.iter().cloned().collect();
    found.keys().all(|word| word_set.contains(word))
}

fn words_in_board(found: &HashMap<String, Vec<(u8, u8)>>, board: &[&str]) -> bool {
    found.iter().all(|(word, coords)| {
        word.chars().zip(coords).all(|(ch, &(x, y))| {
            board.get(x as usize).and_then(|row| row.chars().nth(y as usize)) == Some(ch)
        })
    })
}

fn words_coords_ok(found: &HashMap<String, Vec<(u8, u8)>>) -> bool {
    found.values().all(|coords| {
        coords.windows(2).all(|window| {
            if let [first, second] = window {
                let (x1, y1) = *first;
                let (x2, y2) = *second;
                let xd = (x1 as i8 - x2 as i8).abs();
                let yd = (y1 as i8 - y2 as i8).abs();
                xd <= 1 && yd <= 1
            } else {
                false
            }
        })
    })
}

fn get_score(found: &HashMap<String, Vec<(u8, u8)>>) -> u32 {
    let scores = [1, 2, 4, 6, 9, 12, 16, 20];
    found
        .keys()
        .map(|word| scores.get(word.len().saturating_sub(1)).copied().unwrap_or(20))
        .sum()
}

#[test]
fn test_finds_horizontal_and_vertical_words_on_a_2x2_board() {
    let board = ["ab", "ba"];
    let words = vec!["ab".to_string(), "ba".to_string()];
    let result = to_map(boggle(&board, &words));

    assert!(words_legal(&result, &words), "Words are not legal.");
    assert!(words_in_board(&result, &board), "Words do not fit on the board as expected.");
    assert!(words_coords_ok(&result), "Coordinates of words are not adjacent as required.");

    let score = get_score(&result);
    assert_eq!(score, 4, "Score calculation mismatch.");
}

#[test]
fn test_finds_diagonal_words_on_a_board() {
    let board = ["cat", "bta", "dek"];
    let words = vec!["cat".to_string(), "bet".to_string()];
    let result = to_map(boggle(&board, &words));

    assert!(words_legal(&result, &words), "Words are not legal.");
    assert!(words_in_board(&result, &board), "Words do not fit on the board as expected.");
    assert!(words_coords_ok(&result), "Coordinates of words are not adjacent as required.");

    let score = get_score(&result);
    assert!(score > 0, "Score should be greater than zero.");
}

#[test]
fn test_handles_overlapping_words_correctly() {
    let board = ["sos", "oat", "mom"];
    let words = vec!["so".to_string(), "sat".to_string(), "mom".to_string()];
    let result = to_map(boggle(&board, &words));

    assert!(words_legal(&result, &words), "Words are not legal.");
    assert!(words_in_board(&result, &board), "Words do not fit on the board as expected.");
    assert!(words_coords_ok(&result), "Coordinates of words are not adjacent as required.");

    let score = get_score(&result);
    assert!(score > 0, "Score should be greater than zero.");
}

#[test]
fn test_recognizes_words_requiring_backtracking() {
    let board = ["star", "urms", "tart", "stun"];
    let words = vec!["start".to_string(), "stun".to_string(), "tart".to_string(), "rum".to_string()];
    let result = to_map(boggle(&board, &words));

    assert!(words_legal(&result, &words), "Words are not legal.");
    assert!(words_in_board(&result, &board), "Words do not fit on the board as expected.");
    assert!(words_coords_ok(&result), "Coordinates of words are not adjacent as required.");

    let score = get_score(&result);
    assert!(score > 0, "Score should be greater than zero.");
}

fn setup_test_board_and_words() -> (Vec<&'static str>, Vec<String>) {
    let board = vec!["ab", "ba"];
    let words = vec!["ab".to_string(), "ba".to_string()];
    (board, words)
}

#[test]
fn test_boggle_board_validations() {
    let (board, words) = setup_test_board_and_words();
    let found = to_map(boggle(&board, &words));

    assert!(words_legal(&found, &words), "Not all found words are legal.");
    assert!(words_in_board(&found, &board), "Words do not fit on the board as expected.");
    assert!(words_coords_ok(&found), "Word coordinates are not correctly adjacent.");

    let score = get_score(&found);
    println!("Total score: {}", score);
    assert!(score > 0, "Score should be greater than zero.");
}

#[test]
fn test_basic_functionality_on_a_2x2_board() {
    let board = ["ea", "te"];
    let words = vec!["eat".to_string(), "tea".to_string(), "ate".to_string()];
    let result = to_map(boggle(&board, &words));

    assert!(words_legal(&result, &words), "Returned words not in list");
    assert!(words_in_board(&result, &board), "Returned words not in board");
    let score = get_score(&result);
    println!("2x2 Basic Test Passed with score: {}", score);
}

#[test]
fn test_all_directions_word_search_on_a_4x4_board() {
    let board = ["soup", "rope", "abnd", "nerd"];
    let words = vec![
        "soup".to_string(),
        "rope".to_string(),
        "nerd".to_string(),
        "den".to_string(),
        "open".to_string(),
        "pen".to_string(),
    ];
    let result = to_map(boggle(&board, &words));

    assert!(words_legal(&result, &words), "Returned words not in list");
    assert!(words_in_board(&result, &board), "Returned words not in board");
    let score = get_score(&result);
    println!("4x4 All Directions Test Passed with score: {}", score);
}

#[test]
fn test_embedded_board_and_word_list_on_an_8x8_board() {
    let board = [
        "connecti", "oleaders", "nnetwork", "programm", "algorith", "function", "variable",
        "constant",
    ];
    let words = vec![
        "connection".to_string(),
        "leadership".to_string(),
        "network".to_string(),
        "programming".to_string(),
        "algorithm".to_string(),
        "function".to_string(),
        "variable".to_string(),
        "constant".to_string(),
        "binary".to_string(),
        "framework".to_string(),
    ];
    let result = to_map(boggle(&board, &words));

    assert!(words_legal(&result, &words), "Returned words not in list");
    assert!(words_in_board(&result, &board), "Returned words not in board");
    let score = get_score(&result);
    println!("Embedded 8x8 Test Passed with score: {}", score);
}

#[test]
fn test_embedded_board_and_word_list_on_a_16x16_board() {
    let board = [
        "configurationalx", "establishmentryz", "microprocessorwk", "telecommunication",
        "infrastructuredp", "superintendentvq", "multidimensional", "decentralization",
        "intercontinental", "philanthropistmc", "misinterpretatio", "technologicallyu",
        "incompatibilities", "disproportionate", "anthropologicalf", "counterproductive",
    ];
    let words = vec![
        "configuration".to_string(),
        "establishment".to_string(),
        "microprocessor".to_string(),
        "telecommunication".to_string(),
        "infrastructure".to_string(),
        "superintendent".to_string(),
        "multidimensional".to_string(),
        "decentralization".to_string(),
        "intercontinental".to_string(),
        "philanthropist".to_string(),
        "misinterpretation".to_string(),
        "technologically".to_string(),
        "incompatibilities".to_string(),
        "disproportionate".to_string(),
        "anthropological".to_string(),
        "counterproductive".to_string(),
    ];
    let result = to_map(boggle(&board, &words));

    assert!(words_legal(&result, &words), "Returned words not in list");
    assert!(words_in_board(&result, &board), "Returned words not in board");
    let score = get_score(&result);
    println!("Embedded 16x16 Test Passed with score: {}", score);
}

fn strings(words: &[&str]) -> Vec<String> {
    words.iter().map(|w| w.to_string()).collect()
}

fn sorted_keys(found: &[(String, Vec<(u8, u8)>)]) -> Vec<String> {
    let mut keys: Vec<String> = found.iter().map(|(w, _)| w.clone()).collect();
    keys.sort();
    keys
}

fn is_neighbour_step(a: (u8, u8), b: (u8, u8)) -> bool {
    a != b && (a.0 as i16 - b.0 as i16).abs() <= 1 && (a.1 as i16 - b.1 as i16).abs() <= 1
}

fn trail_ok(board: &[&str], word: &str, path: &[(u8, u8)]) -> bool {
    let spelled: String = path
        .iter()
        .map(|&(r, c)| board[r as usize].chars().nth(c as usize).unwrap())
        .collect();
    let distinct: HashSet<(u8, u8)> = path.iter().copied().collect();
    !path.is_empty()
        && spelled == word
        && distinct.len() == path.len()
        && path.windows(2).all(|w| is_neighbour_step(w[0], w[1]))
}

#[test]
fn two_by_two_paths_follow_search_order() {
    let found = boggle(&["ab", "ba"], &strings(&["ab", "ba"]));
    let map = to_map(found);
    assert_eq!(map.len(), 2);
    assert_eq!(map["ab"], vec![(0, 0), (0, 1)]);
    assert_eq!(map["ba"], vec![(0, 1), (0, 0)]);
    assert_eq!(get_score(&map), 4);
}

#[test]
fn diagonal_word_is_found_with_diagonal_step() {
    let board = ["cat", "bta", "dek"];
    let map = to_map(boggle(&board, &strings(&["cat", "bet"])));
    assert_eq!(map["cat"], vec![(0, 0), (0, 1), (0, 2)]);
    assert_eq!(map["bet"], vec![(1, 0), (2, 1), (1, 1)]);
    assert!(trail_ok(&board, "bet", &map["bet"]));
}

#[test]
fn overlapping_letters_do_not_interfere() {
    let board = ["sos", "oat", "mom"];
    let found = boggle(&board, &strings(&["so", "sat", "mom"]));
    assert_eq!(sorted_keys(&found), strings(&["mom", "sat", "so"]));
    for (w, p) in &found {
        assert!(trail_ok(&board, w, p));
    }
}

#[test]
fn deep_words_survive_pruning() {
    let board = ["star", "urms", "tart", "stun"];
    let found = boggle(&board, &strings(&["start", "stun", "tart", "rum"]));
    assert_eq!(sorted_keys(&found), strings(&["start", "stun", "tart"]));
    for (w, p) in &found {
        assert!(trail_ok(&board, w, p));
    }
}

#[test]
fn empty_dictionary_finds_nothing() {
    let found = boggle(&["abc", "def"], &Vec::new());
    assert!(found.is_empty());
}

#[test]
fn word_without_trail_is_left_out() {
    let board = ["ab", "cd"];
    let found = boggle(&board, &strings(&["abca", "ad", "xyz", "abdc"]));
    assert_eq!(sorted_keys(&found), strings(&["abdc", "ad"]));
}

#[test]
fn cell_is_not_reused_within_a_word() {
    let found = boggle(&["ab"], &strings(&["aba", "ab"]));
    assert_eq!(sorted_keys(&found), strings(&["ab"]));
}

#[test]
fn empty_word_is_never_recorded() {
    let found = boggle(&["a"], &strings(&["", "a"]));
    assert_eq!(found, vec![("a".to_string(), vec![(0, 0)])]);
}

#[test]
fn duplicate_dictionary_words_are_recorded_once() {
    let found = boggle(&["aa"], &strings(&["aa", "aa", "a"]));
    assert_eq!(sorted_keys(&found), strings(&["a", "aa"]));
    let map = to_map(found);
    assert_eq!(map["a"], vec![(0, 0)]);
    assert_eq!(map["aa"], vec![(0, 0), (0, 1)]);
}

#[test]
fn repeated_searches_give_the_same_words() {
    let board = ["soup", "rope", "abnd", "nerd"];
    let words = strings(&["soup", "rope", "nerd", "den", "open", "pen"]);
    let first = sorted_keys(&boggle(&board, &words));
    let second = sorted_keys(&boggle(&board, &words));
    assert_eq!(first, second);
}

#[test]
fn cells_past_the_first_row_width_are_ignored() {
    let board = ["ab", "cde"];
    let found = boggle(&board, &strings(&["de", "cd", "ac"]));
    assert_eq!(sorted_keys(&found), strings(&["ac", "cd"]));
}

#[test]
fn cells_past_a_short_row_are_ignored() {
    let board = ["abc", "d"];
    let found = boggle(&board, &strings(&["ad", "de", "bd", "dbc"]));
    assert_eq!(sorted_keys(&found), strings(&["ad", "bd", "dbc"]));
}

#[test]
fn every_result_is_a_legal_trail() {
    let board = [
        "connecti", "oleaders", "nnetwork", "programm", "algorith", "function", "variable",
        "constant",
    ];
    let words = strings(&["network", "function", "variable", "constant", "binary", "net", "ate"]);
    let found = boggle(&board, &words);
    let dict: HashSet<String> = words.iter().cloned().collect();
    for (w, p) in &found {
        assert!(dict.contains(w));
        assert!(trail_ok(&board, w, p));
    }
    let keys = sorted_keys(&found);
    assert!(keys.contains(&"network".to_string()));
    assert!(keys.contains(&"constant".to_string()));
    assert!(!keys.contains(&"binary".to_string()));
}
