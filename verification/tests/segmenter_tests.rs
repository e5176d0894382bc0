use kepub::segmenter::split_sentences;

#[test]
fn test_split_sentences() {
    let text = r#"Left Munich at 8:35 P.M., on 1st May, arriving at Vienna early next morning; should have arrived at 6:46, but train was an hour late. Buda-Pesth seems a wonderful place, from the glimpse which I got of it from the train and the little I could walk through the streets. I feared to go very far from the station, as we had arrived late and would start as near the correct time as possible."#;

    assert_eq!(split_sentences(&text.to_string()).len(), 3);
}

#[test]
fn test_segmenter_example_reconstruction() {
    let text = r#"Left Munich at 8:35 P.M., on 1st May, arriving at Vienna early next morning; should have arrived at 6:46, but train was an hour late. Buda-Pesth seems a wonderful place, from the glimpse which I got of it from the train and the little I could walk through the streets. I feared to go very far from the station, as we had arrived late and would start as near the correct time as possible."#;

    let parts = split_sentences(&text.to_string());
    assert_eq!(parts.len(), 3);
    let joined: String = parts.concat();
    assert_eq!(joined, text);
}

#[test]
fn test_empty_input_is_one_sentence() {
    let parts = split_sentences(&String::new());
    assert_eq!(parts, vec![String::new()]);
}

#[test]
fn test_whitespace_only_is_one_sentence() {
    let parts = split_sentences(&"  \t\n".to_string());
    assert_eq!(parts, vec!["  \t\n".to_string()]);
}

#[test]
fn test_no_boundary_keeps_input_whole() {
    let parts = split_sentences(&"no punctuation here".to_string());
    assert_eq!(parts, vec!["no punctuation here".to_string()]);
}

#[test]
fn test_single_trailing_char_is_dropped() {
    // One character follows the only cut: the documented quirk drops it.
    let parts = split_sentences(&"A. B".to_string());
    assert_eq!(parts, vec!["A. ".to_string()]);
}

#[test]
fn test_two_trailing_chars_survive() {
    let parts = split_sentences(&"A. Bc".to_string());
    assert_eq!(parts, vec!["A. ".to_string(), "Bc".to_string()]);
}

#[test]
fn test_quote_after_punct_stays_with_sentence() {
    let parts = split_sentences(&"He said \"stop!\" Then silence fell.".to_string());
    let joined: String = parts.concat();
    assert_eq!(joined, "He said \"stop!\" Then silence fell.");
    assert_eq!(parts.len(), 2);
    assert_eq!(parts[0], "He said \"stop!\" ");
}
