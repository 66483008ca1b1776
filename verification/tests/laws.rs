use fivewords::{find_all_words, generate_jobs, run_job, tokenize, word_bits, Context, Finder};

const DICT: &str = "abcde fghij klmno pqrst uvwxy zabcd";

#[test]
fn test_tokenize_whitespace() {
    let toks = tokenize(b"  to\nskip\tabcde \r\nxy ");
    assert_eq!(
        toks,
        vec![
            b"to".to_vec(),
            b"skip".to_vec(),
            b"abcde".to_vec(),
            b"xy".to_vec()
        ]
    );
    assert_eq!(tokenize(b""), Vec::<Vec<u8>>::new());
    assert_eq!(tokenize(b"   \n\t "), Vec::<Vec<u8>>::new());
}

#[test]
fn test_letterset_population_counts() {
    // Every accepted word's LetterSet has exactly 5 bits: words with
    // repeated letters never enter the table.
    let ctx = Context::from_words("abcde aabbc hello world quick jumps".as_bytes());
    assert!(!ctx.all_word_bits.is_empty());
    for &bits in &ctx.all_word_bits {
        assert_eq!(bits.count_ones(), 5);
    }
    assert!(!ctx.all_words.contains(&b"aabbc".to_vec()));
    assert!(!ctx.all_words.contains(&b"hello".to_vec()));
}

#[test]
fn test_non_lowercase_tokens_skipped() {
    // A length-5 token holding a byte outside 'a'..='z' is rejected.
    let ctx = Context::from_words("Abcde ab1de abcde ab-de".as_bytes());
    assert_eq!(ctx.all_words, [b"abcde".to_vec()]);
}

#[test]
fn test_dedup_no_shared_letterset() {
    let ctx = Context::from_words("abcde cdabe eabcd fghij jihgf".as_bytes());
    for k1 in 0..ctx.all_word_bits.len() {
        for k2 in 0..ctx.all_word_bits.len() {
            if k1 != k2 {
                assert_ne!(ctx.all_word_bits[k1], ctx.all_word_bits[k2]);
            }
        }
    }
    // First-seen-wins: the anagrams keep only their first spelling.
    assert_eq!(ctx.all_words, [b"abcde".to_vec(), b"fghij".to_vec()]);
}

#[test]
fn test_ranking_is_permutation() {
    let ctx = Context::from_words(DICT.as_bytes());
    assert_eq!(ctx.order.len(), 26);
    assert_eq!(ctx.reverse_order.len(), 26);
    let mut seen = [false; 26];
    for i in 0..26 {
        let l = ctx.order[i] as usize;
        assert!(l < 26);
        assert!(!seen[l]);
        seen[l] = true;
        assert_eq!(ctx.reverse_order[l], i as u8);
    }
    assert!(seen.iter().all(|&s| s));
}

#[test]
fn test_buckets_partition_by_min_rank() {
    let ctx = Context::from_words(DICT.as_bytes());
    for (k, &bits) in ctx.all_word_bits.iter().enumerate() {
        let min_rank = (0..26)
            .filter(|&l| bits & (1u32 << l) != 0)
            .map(|l| ctx.reverse_order[l] as usize)
            .min()
            .unwrap();
        let mut homes = 0;
        for i in 0..26 {
            let here = ctx.letter_index[i].iter().filter(|&&w| w == bits).count();
            if i == min_rank {
                assert_eq!(here, 1);
                homes += here;
            } else {
                assert_eq!(here, 0);
            }
        }
        assert_eq!(homes, 1);
        assert_eq!(ctx.all_words[k].len(), 5);
    }
}

#[test]
fn test_solutions_disjoint_and_cover_25() {
    let ctx = Context::from_words(DICT.as_bytes());
    let mut f = Finder::new(&ctx);
    let sols = f.find_all();
    assert_eq!(sols.len(), 2);
    for sol in sols {
        for k1 in 0..5 {
            for k2 in 0..5 {
                if k1 != k2 {
                    assert_eq!(sol[k1] & sol[k2], 0);
                }
            }
        }
        let union = sol.iter().fold(0u32, |acc, &w| acc | w);
        assert_eq!(union.count_ones(), 25);
        // Each LetterSet resolves losslessly back to its word.
        let rendered = ctx.words(sol);
        for k in 0..5 {
            let arr: [u8; 5] = rendered[k].as_slice().try_into().unwrap();
            assert_eq!(word_bits(&arr), sol[k]);
        }
    }
}

#[test]
fn test_jobs_cover_sequential_search() {
    // The job decomposition, run in job order, reproduces the sequential
    // enumeration exactly; re-running is deterministic.
    let ctx = Context::from_words(DICT.as_bytes());
    let jobs = generate_jobs(&ctx);
    assert_eq!(jobs, generate_jobs(&ctx));
    let mut by_jobs = Vec::new();
    for &job in &jobs {
        by_jobs.extend(run_job(&ctx, job));
    }
    let mut f = Finder::new(&ctx);
    let sequential = f.find_all();
    assert_eq!(&by_jobs, sequential);
    assert_eq!(find_all_words(&ctx), by_jobs);
    assert_eq!(find_all_words(&ctx), find_all_words(&ctx));
}

#[test]
fn test_repeated_letter_dictionary_empty() {
    let ctx = Context::from_words("aabbc ddeef gghij kklmn".as_bytes());
    assert!(ctx.all_words.is_empty());
    assert!(ctx.all_word_bits.is_empty());
    let mut f = Finder::new(&ctx);
    assert!(f.find_all().is_empty());
    assert!(find_all_words(&ctx).is_empty());
}

#[test]
fn test_anagram_duplicate_changes_nothing() {
    let with_dup = Context::from_words("abcde cdabe fghij klmno pqrst uvwxy zabcd".as_bytes());
    let without = Context::from_words(DICT.as_bytes());
    assert_eq!(with_dup.all_word_bits, without.all_word_bits);
    let mut f1 = Finder::new(&with_dup);
    let mut f2 = Finder::new(&without);
    assert_eq!(f1.find_all(), f2.find_all());
}

fn brute_force_solutions(ctx: &Context) -> Vec<[u32; 5]> {
    let bits = &ctx.all_word_bits;
    let n = bits.len();
    let mut found = Vec::new();
    for k1 in 0..n {
        for k2 in k1 + 1..n {
            for k3 in k2 + 1..n {
                for k4 in k3 + 1..n {
                    for k5 in k4 + 1..n {
                        let sol = [bits[k1], bits[k2], bits[k3], bits[k4], bits[k5]];
                        let mut ok = true;
                        for a in 0..5 {
                            for b in a + 1..5 {
                                if sol[a] & sol[b] != 0 {
                                    ok = false;
                                }
                            }
                        }
                        let union = sol.iter().fold(0u32, |acc, &w| acc | w);
                        if ok && union.count_ones() == 25 {
                            found.push(sol);
                        }
                    }
                }
            }
        }
    }
    found
}

fn canonical(sols: &[[u32; 5]]) -> Vec<[u32; 5]> {
    let mut out: Vec<[u32; 5]> = sols
        .iter()
        .map(|sol| {
            let mut s = *sol;
            s.sort();
            s
        })
        .collect();
    out.sort();
    out
}

#[test]
fn test_search_matches_brute_force() {
    // Cross-check the pruned enumeration against exhaustive search on
    // small synthetic dictionaries: same solutions, none missed, none
    // found twice.
    let dicts = [
        "abcde fghij klmno pqrst uvwxy",
        "abcde fghij klmno pqrst uvwxy zabcd fghiz",
        "abcde fghij klmno pqrst uvwxy zabcd cdabe aaaaa toolong xx",
        "qwert yuiop asdfg hjklz xcvbn abcde fghij klmno pqrst uvwxy",
    ];
    for dict in dicts {
        let ctx = Context::from_words(dict.as_bytes());
        let mut f = Finder::new(&ctx);
        let sols = f.find_all();
        assert_eq!(
            canonical(sols),
            canonical(&brute_force_solutions(&ctx)),
            "mismatch for dictionary: {dict}"
        );
    }
}

#[test]
fn test_empty_dictionary_is_valid() {
    let ctx = Context::from_words(b"");
    assert!(ctx.all_words.is_empty());
    assert!(find_all_words(&ctx).is_empty());
}
