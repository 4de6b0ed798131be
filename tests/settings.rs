use seat_allocator::excluded_labels;

fn strings(v: &[&str]) -> Vec<String> {
    v.iter().map(|s| s.to_string()).collect()
}

#[test]
fn labels_split_on_commas_and_lines() {
    assert_eq!(
        excluded_labels("A011,A012, A023\nA024 ,\n A034"),
        strings(&["A011", "A012", "A023", "A024", "", "A034"])
    );
}

#[test]
fn one_label_without_separator() {
    assert_eq!(excluded_labels("  A007\t"), strings(&["A007"]));
}

#[test]
fn empty_text_is_one_blank_label() {
    assert_eq!(excluded_labels(""), strings(&[""]));
    assert_eq!(excluded_labels("A001,"), strings(&["A001", ""]));
}
