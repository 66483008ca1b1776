use fivewords::{word_bits, Context, Finder};

#[test]
fn test_word_bits() {
    assert_eq!(word_bits(&"aaaaa".as_bytes().try_into().unwrap()), 0b1);
    assert_eq!(word_bits(&"bbbbb".as_bytes().try_into().unwrap()), 0b10);
    assert_eq!(
        word_bits(&"zzzzz".as_bytes().try_into().unwrap()),
        0b10_0000_0000_0000_0000_0000_0000
    );
    assert_eq!(
        word_bits(&"azhkg".as_bytes().try_into().unwrap()),
        0b10_0000_0000_0000_0100_1100_0001
    );
}

#[test]
fn test_context_creation() {
    let ctx = Context::from_words("to skip abcde cdabe aaaaa efghi".as_bytes());
    assert_eq!(
        ctx.all_words,
        ["abcde".as_bytes().to_vec(), "efghi".as_bytes().to_vec()]
    );
    assert_eq!(ctx.all_word_bits, [0b00011111, 0b111110000]);
    // Let's sort to ensure those are deterministic.
    let mut bits_to_indexes = ctx.bits_to_indexes.iter().collect::<Vec<_>>();
    bits_to_indexes.sort();
    assert_eq!(bits_to_indexes, [(&0b11111, &0), (&0b111110000, &1)]);
    assert_eq!(ctx.order[15..], [24, 25, 0, 1, 2, 3, 5, 6, 7, 8, 4,]); // e is repeated twice.
}

#[test]
fn test_finder() {
    let words = "abcde fghij klmno pqrst uvwxy zabcd";
    let ctx = Context::from_words(words.as_bytes());
    let mut f = Finder::new(&ctx);
    let words = f.find_all();
    assert_eq!(words.len(), 2);
    assert_eq!(
        ctx.words(&words[0]),
        [
            "abcde".as_bytes().to_vec(),
            "fghij".as_bytes().to_vec(),
            "klmno".as_bytes().to_vec(),
            "pqrst".as_bytes().to_vec(),
            "uvwxy".as_bytes().to_vec()
        ]
    );
    assert_eq!(
        ctx.words(&words[1]),
        [
            "fghij".as_bytes().to_vec(),
            "klmno".as_bytes().to_vec(),
            "pqrst".as_bytes().to_vec(),
            "uvwxy".as_bytes().to_vec(),
            "zabcd".as_bytes().to_vec()
        ]
    );
}
