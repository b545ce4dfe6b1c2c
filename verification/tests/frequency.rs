use scytale::frequency::{
    char_counts, count_chars, count_ngrams, count_words, ngram_counts, render, word_counts,
    MAX_NGRAM_LENGTH, PAD,
};
use scytale::text_cipher::CipherError;

fn unit(text: &str) -> Vec<char> {
    text.chars().collect()
}

#[test]
fn count_chars_orders_by_character() {
    assert_eq!("a,2\nb,1\n", count_chars("aab"));
    assert_eq!("a,1\nb,2\n", count_chars("bab"));
    assert_eq!(" ,2\n!,1\nA,1\na,1\nz,1\n", count_chars("z a A!"));
}

#[test]
fn count_chars_of_nothing_is_empty() {
    assert_eq!("", count_chars(""));
}

#[test]
fn count_chars_writes_counts_in_decimal() {
    assert_eq!("x,12\n", count_chars("xxxxxxxxxxxx"));
    let text = "y".repeat(1005) + "z";
    assert_eq!("y,1005\nz,1\n", count_chars(&text));
    assert_eq!("q,10\n", count_chars("qqqqqqqqqq"));
    assert_eq!("q,9\n", count_chars("qqqqqqqqq"));
}

#[test]
fn count_chars_beyond_ascii() {
    assert_eq!("a,1\n\u{e9},2\n\u{4e16},1\n", count_chars("\u{e9}\u{4e16}a\u{e9}"));
}

#[test]
fn count_words_orders_by_count() {
    assert_eq!("b,1\na,2\n", count_words("a a b"));
    assert_eq!("a,1\nb,2\n", count_words("b a b"));
}

#[test]
fn count_words_keeps_first_seen_order_among_equal_counts() {
    assert_eq!("the,1\nquick,1\nbrown,1\nfox,1\n", count_words("the quick brown fox"));
    assert_eq!("c,1\na,1\nb,2\n", count_words("b c a b"));
}

#[test]
fn count_words_splits_on_single_spaces_only() {
    assert_eq!(",1\n", count_words(""));
    assert_eq!(",2\n", count_words(" "));
    assert_eq!("a,1\n,1\nb,1\n", count_words("a  b"));
    assert_eq!("a\tb,1\nc\nd,1\n", count_words("a\tb c\nd"));
    assert_eq!("b,1\n,2\n", count_words(" b "));
}

#[test]
fn count_ngrams_pads_both_ends() {
    let p = PAD;
    assert_eq!(format!("{p}f,1\nfo,1\noo,1\no{p},1\n"), count_ngrams("foo", 2).unwrap());
    assert_eq!(
        format!("{p}{p}a,1\n{p}ab,1\nab{p},1\nb{p}{p},1\n"),
        count_ngrams("ab", 3).unwrap()
    );
}

#[test]
fn count_ngrams_orders_by_count() {
    let p = PAD;
    assert_eq!(format!("{p}a,1\na{p},1\naa,2\n"), count_ngrams("aaa", 2).unwrap());
    assert_eq!(format!("{p}a,1\nba,1\nb{p},1\nab,2\n"), count_ngrams("abab", 2).unwrap());
}

#[test]
fn count_ngrams_of_length_one_counts_characters_as_they_come() {
    assert_eq!("a,1\nb,1\nc,1\n", count_ngrams("abc", 1).unwrap());
    assert_eq!("a,1\nb,2\n", count_ngrams("bab", 1).unwrap());
    assert_eq!("", count_ngrams("", 1).unwrap());
}

#[test]
fn count_ngrams_of_an_empty_text_holds_only_padding() {
    let p = PAD;
    assert_eq!(format!("{p}{p},1\n"), count_ngrams("", 2).unwrap());
    assert_eq!(format!("{p}{p}{p},2\n"), count_ngrams("", 3).unwrap());
}

#[test]
fn count_ngrams_longer_than_the_text() {
    let p = PAD;
    assert_eq!(
        format!("{p}{p}{p}x,1\n{p}{p}x{p},1\n{p}x{p}{p},1\nx{p}{p}{p},1\n"),
        count_ngrams("x", 4).unwrap()
    );
}

#[test]
fn count_ngrams_refuses_length_zero() {
    assert_eq!(Err(CipherError::InvalidArgument), count_ngrams("abc", 0));
    assert_eq!(Err(CipherError::InvalidArgument), count_ngrams("", 0));
    assert_eq!(Err(CipherError::InvalidArgument), ngram_counts("abc", 0));
}

#[test]
fn pad_is_the_word_joiner() {
    assert_eq!('\u{2060}', PAD);
    assert!(MAX_NGRAM_LENGTH >= 1_000_000);
}

#[test]
fn char_counts_gives_the_rows() {
    assert_eq!(vec![(unit("a"), 2u64), (unit("b"), 1u64)], char_counts("aab"));
    assert_eq!(Vec::<(Vec<char>, u64)>::new(), char_counts(""));
}

#[test]
fn word_counts_gives_the_rows() {
    assert_eq!(vec![(unit("b"), 1u64), (unit("a"), 2u64)], word_counts("a a b"));
    assert_eq!(vec![(unit(""), 1u64)], word_counts(""));
}

#[test]
fn ngram_counts_gives_the_rows() {
    let p = PAD;
    assert_eq!(
        vec![(vec![p, 'a'], 1u64), (vec!['a', p], 1u64), (vec!['a', 'a'], 2u64)],
        ngram_counts("aaa", 2).unwrap()
    );
}

#[test]
fn render_writes_one_line_for_each_row() {
    assert_eq!("", render(&Vec::new()));
    assert_eq!("ab,0\n", render(&vec![(unit("ab"), 0u64)]));
    assert_eq!(
        "x,7\n,18446744073709551615\nlong unit,100\n",
        render(&vec![(unit("x"), 7u64), (unit(""), u64::MAX), (unit("long unit"), 100u64)])
    );
}

#[test]
fn counting_twice_gives_the_same_report() {
    let text = "one two three two three three four four four four";
    assert_eq!(count_words(text), count_words(text));
    assert_eq!("one,1\ntwo,2\nthree,3\nfour,4\n", count_words(text));
    assert_eq!(count_chars(text), count_chars(text));
    assert_eq!(count_ngrams(text, 3), count_ngrams(text, 3));
}
