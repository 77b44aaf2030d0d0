use rust_exercises::longest_substring::Solution;

#[test]
fn test_length_of_longest_substring() {
    let s1 = String::from("abcabcbb");
    let len1 = Solution::length_of_longest_substring(s1);
    assert_eq!(len1, 3);
    let s2 = String::from("bbbbb");
    let len2 = Solution::length_of_longest_substring(s2);
    assert_eq!(len2, 1);
    let s3 = String::from("pwwkew");
    let len3 = Solution::length_of_longest_substring(s3);
    assert_eq!(len3, 3);
    let s4 = String::from("");
    let len4 = Solution::length_of_longest_substring(s4);
    assert_eq!(len4, 0);
    let s5 = String::from(" ");
    let len5 = Solution::length_of_longest_substring(s5);
    assert_eq!(len5, 1);
}

#[test]
fn test_length_of_longest_substring_entry_and_modify() {
    let s1 = String::from("abcabcbb");
    let len1 = Solution::length_of_longest_substring_entry_and_modify(s1);
    assert_eq!(len1, 3);
    let s2 = String::from("bbbbb");
    let len2 = Solution::length_of_longest_substring_entry_and_modify(s2);
    assert_eq!(len2, 1);
    let s3 = String::from("pwwkew");
    let len3 = Solution::length_of_longest_substring_entry_and_modify(s3);
    assert_eq!(len3, 3);
    let s4 = String::from("");
    let len4 = Solution::length_of_longest_substring_entry_and_modify(s4);
    assert_eq!(len4, 0);
    let s5 = String::from(" ");
    let len5 = Solution::length_of_longest_substring_entry_and_modify(s5);
    assert_eq!(len5, 1);
}

#[test]
fn test_length_of_longest_substring_vecdeque() {
    let s1 = String::from("abcabcbb");
    let len1 = Solution::length_of_longest_substring_vecdeque(s1);
    assert_eq!(len1, 3);
    let s2 = String::from("bbbbb");
    let len2 = Solution::length_of_longest_substring_vecdeque(s2);
    assert_eq!(len2, 1);
    let s3 = String::from("pwwkew");
    let len3 = Solution::length_of_longest_substring_vecdeque(s3);
    assert_eq!(len3, 3);
    let s4 = String::from("");
    let len4 = Solution::length_of_longest_substring_vecdeque(s4);
    assert_eq!(len4, 0);
    let s5 = String::from(" ");
    let len5 = Solution::length_of_longest_substring_vecdeque(s5);
    assert_eq!(len5, 1);
}

fn all_three(s: &str) -> (i32, i32, i32) {
    (
        Solution::length_of_longest_substring(String::from(s)),
        Solution::length_of_longest_substring_entry_and_modify(String::from(s)),
        Solution::length_of_longest_substring_vecdeque(String::from(s)),
    )
}

#[test]
fn ascii_inputs_give_the_same_answer_three_ways() {
    assert_eq!(all_three("dvdf"), (3, 3, 3));
    assert_eq!(all_three("abba"), (2, 2, 2));
    assert_eq!(all_three("tmmzuxt"), (5, 5, 5));
    assert_eq!(all_three("dhfwkhjafa"), (6, 6, 6));
    assert_eq!(all_three("abcdefghij"), (10, 10, 10));
    assert_eq!(all_three("aab"), (2, 2, 2));
}

#[test]
fn window_restarts_after_a_repeat_outside_it() {
    // The earlier 'a' lies before the current window and must not shrink it.
    assert_eq!(all_three("abcbda"), (4, 4, 4));
}

#[test]
fn multibyte_chars_are_measured_in_bytes_by_the_map_scans() {
    // 'é' takes two bytes; the map-based scans measure windows by byte offsets.
    assert_eq!(all_three("éé"), (2, 2, 1));
    assert_eq!(all_three("éa"), (3, 3, 2));
    assert_eq!(all_three("aé"), (2, 2, 2));
}

#[test]
fn a_four_byte_char_alone() {
    assert_eq!(all_three("😀"), (1, 1, 1));
    assert_eq!(all_three("😀😀"), (4, 4, 1));
}

#[test]
fn reversing_an_ascii_string_keeps_the_answer() {
    assert_eq!(all_three("pwwkew"), all_three("wekwwp"));
    assert_eq!(all_three("abcabcbb"), all_three("bbcbacba"));
    assert_eq!(all_three("tmmzuxt"), all_three("txuzmmt"));
}
