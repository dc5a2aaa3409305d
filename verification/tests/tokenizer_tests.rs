use bpe_tokenizer::text::{
    chars_of, decimal_of, is_whitespace, replace_end_markers, split_at_char, split_lines,
    split_whitespace, string_of, trim_whitespace,
};
use bpe_tokenizer::{
    Bisection, Cfg, Config, Evaluator, Optimizer, Pair, Storage, Token, TokenizerError, Tokenizer, Toward,
    Vocabulary, BPE, GPT,
};

fn texts(ts: &[&str]) -> Vec<String> {
    ts.iter().map(|t| t.to_string()).collect()
}

fn strs(tokens: &[Token]) -> Vec<String> {
    tokens.iter().map(|t| t.text().to_string()).collect()
}

fn vocab_strs(v: &Vocabulary) -> Vec<String> {
    (0..v.get_size()).map(|i| v.get_token(i).unwrap().text().to_string()).collect()
}

fn vocab_of(ts: &[&str]) -> Vocabulary {
    let mut v = Vocabulary::new();
    for t in ts {
        v.add(Token::new(t));
    }
    v
}

#[test]
fn token_keeps_its_text() {
    let t = Token::new("hello");
    assert_eq!(t.text(), "hello");
    assert_eq!(t.clone(), Token::new("hello"));
    assert_ne!(t, Token::new("hell"));
}

#[test]
fn pair_keeps_its_tokens() {
    let p = Pair::new(Token::new("a"), Token::new("bc"));
    assert_eq!(p.first().text(), "a");
    assert_eq!(p.second().text(), "bc");
    assert_eq!(p.clone(), Pair::new(Token::new("a"), Token::new("bc")));
    assert_ne!(p, Pair::new(Token::new("a"), Token::new("b")));
}

#[test]
fn vocabulary_add_assigns_next_index() {
    let mut v = Vocabulary::new();
    assert_eq!(v.get_size(), 0);
    v.add(Token::new("x"));
    v.add(Token::new("y"));
    v.add(Token::new("x"));
    assert_eq!(v.get_size(), 2);
    assert_eq!(v.get_index(&Token::new("x")), Some(0));
    assert_eq!(v.get_index(&Token::new("y")), Some(1));
    assert_eq!(v.get_index(&Token::new("z")), None);
    assert_eq!(v.get_token(1).unwrap().text(), "y");
    assert!(v.get_token(2).is_none());
    assert!(v.contains(&Token::new("y")));
    assert!(!v.contains(&Token::new("z")));
}

#[test]
fn vocabulary_remove_shifts_later_indices() {
    let mut v = vocab_of(&["a", "b", "c"]);
    v.remove(&Token::new("a"));
    assert_eq!(vocab_strs(&v), vec!["b", "c"]);
    assert_eq!(v.get_index(&Token::new("c")), Some(1));
    assert!(!v.contains(&Token::new("a")));
    v.remove(&Token::new("zzz"));
    assert_eq!(vocab_strs(&v), vec!["b", "c"]);
}

#[test]
fn vocabulary_add_then_remove_restores() {
    let mut v = vocab_of(&["a", "b"]);
    v.add(Token::new("c"));
    v.remove(&Token::new("c"));
    assert_eq!(vocab_strs(&v), vec!["a", "b"]);
}

#[test]
fn vocabulary_index_and_token_agree() {
    let v = vocab_of(&["q", "r", "s", "t"]);
    for i in 0..v.get_size() {
        let t = v.get_token(i).unwrap().clone();
        assert_eq!(v.get_index(&t), Some(i));
    }
}

#[test]
fn vocabulary_add_token_adds_new_tokens_once() {
    let mut v = vocab_of(&["a", "b"]);
    v.add_token(&Token::new("b"));
    assert_eq!(vocab_strs(&v), vec!["a", "b"]);
    v.add_token(&Token::new("c"));
    assert_eq!(vocab_strs(&v), vec!["a", "b", "c"]);
    assert_eq!(v.get_size(), 3);
    assert!(v.contains(&Token::new("c")));
}

#[test]
fn text_splitting_and_trimming() {
    let cs = chars_of(" \tab  c\u{3000}d\n");
    let ws: Vec<String> = split_whitespace(&cs).iter().map(|w| string_of(w)).collect();
    assert_eq!(ws, vec!["ab", "c", "d"]);
    assert!(is_whitespace('\u{85}'));
    assert!(!is_whitespace('x'));
    assert_eq!(string_of(&trim_whitespace(&chars_of("  a b \n"))), "a b");
    assert_eq!(string_of(&trim_whitespace(&chars_of("   "))), "");
    assert_eq!(string_of(&replace_end_markers(&chars_of("a</w>b</w></w"))), "a b </w");
    let parts: Vec<String> = split_at_char(&chars_of(",a,,b"), ',').iter().map(|p| string_of(p)).collect();
    assert_eq!(parts, vec!["", "a", "", "b"]);
    let lines: Vec<String> = split_lines(&chars_of("a\r\nb\n\nc\r")).iter().map(|p| string_of(p)).collect();
    assert_eq!(lines, vec!["a", "b", "", "c\r"]);
    assert_eq!(string_of(&decimal_of(0)), "0");
    assert_eq!(string_of(&decimal_of(1907)), "1907");
}

#[test]
fn text_helpers_agree_with_std() {
    let samples = ["", " x ", "a\u{2003}b\u{a0}c", "no-space", "\u{1680}lead trail\u{205f}"];
    for s in samples {
        let cs = chars_of(s);
        let ws: Vec<String> = split_whitespace(&cs).iter().map(|w| string_of(w)).collect();
        let expected: Vec<String> = s.split_whitespace().map(|w| w.to_string()).collect();
        assert_eq!(ws, expected);
        assert_eq!(string_of(&trim_whitespace(&cs)), s.trim());
        let lines: Vec<String> = split_lines(&cs).iter().map(|p| string_of(p)).collect();
        let expected_lines: Vec<String> = s.lines().map(|l| l.to_string()).collect();
        assert_eq!(lines, expected_lines);
    }
    for c in ['\u{9}', '\u{d}', ' ', '\u{2028}', '\u{3000}', 'a', '\u{200b}', '\u{180e}'] {
        assert_eq!(is_whitespace(c), c.is_whitespace());
    }
    for n in [0usize, 9, 10, 99, 100, 123456789] {
        assert_eq!(string_of(&decimal_of(n)), n.to_string());
    }
}

#[test]
fn bpe_new_is_empty() {
    let bpe = BPE::new();
    assert_eq!(bpe.vocabulary().get_size(), 0);
    assert_eq!(bpe.pair_count(), 0);
    assert_eq!(strs(&bpe.encode("   ")), Vec::<String>::new());
}

#[test]
fn bpe_train_single_merge() {
    let mut bpe = BPE::new();
    bpe.train(&texts(&["ab ab"]));
    assert_eq!(vocab_strs(bpe.vocabulary()), vec!["a", "b", " ", "<", "/", "w", ">", "ab"]);
    assert_eq!(bpe.pair_count(), 1);
    assert_eq!(
        strs(&bpe.encode("ab ab")),
        vec!["ab", "<", "/", "w", ">", "ab", "<", "/", "w", ">"]
    );
}

#[test]
fn bpe_train_follows_the_counts() {
    let mut bpe = BPE::new();
    bpe.train(&texts(&["abc abd"]));
    assert_eq!(
        vocab_strs(bpe.vocabulary()),
        vec!["a", "b", "c", " ", "d", "<", "/", "w", ">", "ab", "bc", "bcd"]
    );
    assert_eq!(bpe.pair_count(), 3);
    assert_eq!(
        strs(&bpe.encode("abc abd")),
        vec!["ab", "c", "<", "/", "w", ">", "ab", "d", "<", "/", "w", ">"]
    );
}

#[test]
fn bpe_merges_left_to_right_without_overlap() {
    let mut bpe = BPE::new();
    bpe.train(&texts(&["aaa"]));
    assert_eq!(vocab_strs(bpe.vocabulary()), vec!["a", "<", "/", "w", ">", "aa"]);
    assert_eq!(strs(&bpe.encode("aaa")), vec!["aa", "a", "<", "/", "w", ">"]);
    assert_eq!(strs(&bpe.encode("aaaa")), vec!["aa", "aa", "<", "/", "w", ">"]);
}

#[test]
fn bpe_decode_joins_words_with_single_spaces() {
    let mut bpe = BPE::new();
    bpe.train(&texts(&["the cat sat", "on the mat"]));
    let text = "  the   cat\tsat on\nthe mat ";
    let tokens = bpe.encode(text);
    assert_eq!(bpe.decode(&tokens), "the cat sat on the mat");
    let joined: String = strs(&tokens).concat();
    assert_eq!(joined, "the</w>cat</w>sat</w>on</w>the</w>mat</w>");
}

#[test]
fn bpe_can_encode_needs_every_character() {
    let mut bpe = BPE::new();
    bpe.train(&texts(&["ab"]));
    assert!(bpe.can_encode_text("ba  ab"));
    assert!(bpe.can_encode_text(""));
    assert!(!bpe.can_encode_text("abc"));
    assert!(!BPE::new().can_encode_text("a"));
    assert!(BPE::new().can_encode_text("  "));
}

#[test]
fn bpe_set_pairs_keeps_prefix() {
    let mut bpe = BPE::new();
    bpe.train(&texts(&["abc abd"]));
    bpe.set_pairs(1);
    assert_eq!(bpe.pair_count(), 1);
    assert_eq!(
        strs(&bpe.encode("abd")),
        vec!["ab", "d", "<", "/", "w", ">"]
    );
    bpe.set_pairs(0);
    assert_eq!(strs(&bpe.encode("ab")), vec!["a", "b", "<", "/", "w", ">"]);
}

#[test]
fn bpe_retraining_appends_merges() {
    let mut bpe = BPE::new();
    bpe.train(&texts(&["ab"]));
    bpe.train(&texts(&["cd"]));
    assert_eq!(bpe.pair_count(), 2);
    assert_eq!(vocab_strs(bpe.vocabulary()), vec!["c", "d", "<", "/", "w", ">", "cd"]);
}

#[test]
fn tokenizer_round_trip_and_copies() {
    let mut bpe = BPE::new();
    bpe.train(&texts(&["low lower lowest"]));
    let size = bpe.vocabulary().get_size();
    let tok = Tokenizer::new(bpe);
    assert!(tok.can_tokenize("lower low"));
    let tokens = tok.tokenize("lower   low");
    assert_eq!(tok.detokenize(&tokens), "lower low");
    assert_eq!(tok.model().vocab_size(), size);
    assert!(tok.config().data().is_empty());
    assert_eq!(tok.config().metric(), "perplexity");
    assert_eq!(tok.convert(&[]), Vec::<usize>::new());
    assert_eq!(strs(&tok.revert(&[])), Vec::<String>::new());
}

#[test]
fn tokenizer_adjust_by_vocabulary_size_halves_merges() {
    let mut bpe = BPE::new();
    bpe.train(&texts(&["abc abd"]));
    let size = bpe.vocabulary().get_size();
    let mut tok = Tokenizer::new(bpe);
    assert_eq!(tok.pair_count(), 3);
    tok.adjust_by_vocabulary_size(size);
    assert_eq!(tok.pair_count(), 1);
    tok.set_pairs(0);
    tok.adjust_by_vocabulary_size(size - 1);
    assert_eq!(tok.pair_count(), 0);
}

#[test]
fn tokenizer_adjust_by_vocabulary_size_returns_for_any_target() {
    let mut bpe = BPE::new();
    bpe.train(&texts(&["abc abd abe"]));
    let size = bpe.vocabulary().get_size();
    for target in [0, 1, size - 1, size, size + 1, 1000] {
        let mut tok = Tokenizer::new(bpe.clone());
        let n = tok.pair_count();
        tok.adjust_by_vocabulary_size(target);
        assert_eq!(tok.pair_count(), n / 2);
        assert_eq!(tok.vocabulary().get_size(), size);
    }
}

#[test]
fn gpt_conversions_on_its_vocabulary() {
    let g = GPT::new(7);
    assert_eq!(g.vocab_size(), 7);
    assert_eq!(g.vocabulary().get_size(), 0);
    assert_eq!(g.convert(&[]), Vec::<usize>::new());
    assert!(g.revert(&[]).is_empty());
}

#[test]
fn storage_csv_text() {
    let v = vocab_of(&["a", "bc", ""]);
    assert_eq!(Storage::csv_text(&v), "a,0\nbc,1\n,2\n");
    assert_eq!(Storage::csv_text(&Vocabulary::new()), "");
}

#[test]
fn storage_csv_round_trip() {
    let v = vocab_of(&["x", "y", "xy", "</w>", "é"]);
    let text = Storage::csv_text(&v);
    let back = Storage::parse_csv(&text).unwrap();
    assert_eq!(vocab_strs(&back), vocab_strs(&v));
}

#[test]
fn storage_parse_csv_reads_first_fields() {
    let v = Storage::parse_csv("q,7\r\nr,0\nq,3").unwrap();
    assert_eq!(vocab_strs(&v), vec!["q", "r"]);
    assert_eq!(Storage::parse_csv("").unwrap().get_size(), 0);
}

#[test]
fn storage_parse_csv_rejects_bad_line() {
    match Storage::parse_csv("a,0\nb\nc,1,2\n") {
        Err(TokenizerError::InvalidToken(line)) => assert_eq!(line, "b"),
        other => panic!("unexpected: {:?}", other),
    }
    match Storage::parse_csv("a,0\n\n") {
        Err(TokenizerError::InvalidToken(line)) => assert_eq!(line, ""),
        other => panic!("unexpected: {:?}", other),
    }
}

#[test]
fn storage_keeps_path_and_format() {
    let s = Storage::new("v.csv".to_string(), "csv".to_string());
    assert_eq!(s.path(), "v.csv");
    assert_eq!(s.format(), "csv");
}

#[test]
fn config_default_and_update() {
    let mut c = Config::default();
    assert_eq!(
        format!("{:?}", c),
        "Config { metric: \"perplexity\", data: [], path: \"vocabulary.json\", format: \"json\", method: \"frequency\", threshold: 10 }"
    );
    c.update(Cfg::Metric("accuracy".to_string()));
    c.update(Cfg::Data(texts(&["x"])));
    c.update(Cfg::Threshold(3));
    c.update(Cfg::Path("p".to_string()));
    c.update(Cfg::Format("csv".to_string()));
    c.update(Cfg::Method("coverage".to_string()));
    assert_eq!(c.metric(), "accuracy");
    assert_eq!(c.data(), &texts(&["x"]));
    assert_eq!(
        format!("{:?}", c),
        "Config { metric: \"accuracy\", data: [\"x\"], path: \"p\", format: \"csv\", method: \"coverage\", threshold: 3 }"
    );
}

#[test]
fn config_new_keeps_settings() {
    let c = Config::new(
        "accuracy".to_string(),
        texts(&["a b"]),
        "out.csv".to_string(),
        "csv".to_string(),
        "frequency".to_string(),
        2,
    );
    assert_eq!(c.metric(), "accuracy");
    assert_eq!(c.data(), &texts(&["a b"]));
}

#[test]
fn optimizer_by_frequency() {
    let mut v = vocab_of(&["a", "b", "c"]);
    let keep = Optimizer::new("frequency".to_string(), 1);
    keep.optimize_by_frequency(&mut v);
    assert_eq!(vocab_strs(&v), vec!["a", "b", "c"]);
    let prune = Optimizer::new("frequency".to_string(), 2);
    assert_eq!(prune.method(), "frequency");
    assert_eq!(prune.threshold(), 2);
    prune.optimize_by_frequency(&mut v);
    assert_eq!(v.get_size(), 0);
}

#[test]
fn evaluator_accuracy_counts() {
    let mut bpe = BPE::new();
    bpe.train(&texts(&["ab ba"]));
    let tok = Tokenizer::new(bpe);
    let e = Evaluator::new("accuracy".to_string(), texts(&["ab ba", "ab  ba", " a", "b"]));
    assert_eq!(e.metric(), "accuracy");
    assert_eq!(e.data().len(), 4);
    assert_eq!(e.accuracy_counts(&tok), (2, 4));
}

#[test]
fn errors_convert_from_their_sources() {
    let io = std::io::Error::new(std::io::ErrorKind::NotFound, "gone");
    assert!(matches!(TokenizerError::from(io), TokenizerError::IoError(_)));
    let parse = "x".parse::<i32>().unwrap_err();
    assert!(matches!(TokenizerError::from(parse), TokenizerError::ParseError(_)));
    let json = serde_json::from_str::<i32>("nope").unwrap_err();
    let message = json.to_string();
    match TokenizerError::from(json) {
        TokenizerError::InvalidConfig(m) => assert_eq!(m, message),
        other => panic!("unexpected: {:?}", other),
    }
}

#[test]
fn tokens_and_pairs_display() {
    assert_eq!(Token::new("ab").to_string(), "ab");
    let p = Pair::new(Token::new("a"), Token::new("b c"));
    assert_eq!(p.to_string(), "(a, b c)");
}

#[test]
fn training_makes_training_texts_encodable() {
    let data = texts(&["héllo wörld", "zz\ty", "x"]);
    let mut bpe = BPE::new();
    bpe.train(&data);
    for t in &data {
        assert!(bpe.can_encode_text(t));
        let tokens = bpe.encode(t);
        let words: Vec<&str> = t.split_whitespace().collect();
        assert_eq!(bpe.decode(&tokens), words.join(" "));
    }
}

#[test]
fn copies_keep_their_contents() {
    let c = Config::new(
        "accuracy".to_string(),
        texts(&["a", "b"]),
        "x.csv".to_string(),
        "csv".to_string(),
        "coverage".to_string(),
        5,
    );
    assert_eq!(format!("{:?}", c.clone()), format!("{:?}", c));
    let mut bpe = BPE::new();
    bpe.train(&texts(&["abab cd"]));
    let copy = bpe.clone();
    assert_eq!(vocab_strs(copy.vocabulary()), vocab_strs(bpe.vocabulary()));
    assert_eq!(strs(&copy.encode("abab")), strs(&bpe.encode("abab")));
    let tok = Tokenizer::new(bpe);
    let tok2 = tok.clone();
    assert_eq!(strs(&tok2.tokenize("cd ab")), strs(&tok.tokenize("cd ab")));
    let s = Storage::new("p".to_string(), "csv".to_string()).clone();
    assert_eq!((s.path(), s.format()), ("p", "csv"));
    let o = Optimizer::new("coverage".to_string(), 40).clone();
    assert_eq!((o.method(), o.threshold()), ("coverage", 40));
    let e = Evaluator::new("accuracy".to_string(), texts(&["q"])).clone();
    assert_eq!(e.data(), &texts(&["q"]));
    assert_eq!(GPT::new(3).clone().vocab_size(), 3);
}

#[test]
fn repeated_merge_changes_nothing_more() {
    let mut once = BPE::new();
    once.train(&texts(&["abab"]));
    let mut twice = BPE::new();
    twice.train(&texts(&["abab"]));
    twice.train(&texts(&["abab"]));
    assert_eq!(twice.pair_count(), 2 * once.pair_count());
    assert_eq!(strs(&twice.encode("ababa")), strs(&once.encode("ababa")));
}

#[test]
fn config_updates_commute_across_settings() {
    let mut a = Config::default();
    let mut b = Config::default();
    a.update(Cfg::Metric("accuracy".to_string()));
    a.update(Cfg::Threshold(4));
    b.update(Cfg::Threshold(4));
    b.update(Cfg::Metric("accuracy".to_string()));
    assert_eq!(format!("{:?}", a), format!("{:?}", b));
    a.update(Cfg::Threshold(9));
    let mut c = Config::default();
    c.update(Cfg::Metric("accuracy".to_string()));
    c.update(Cfg::Threshold(9));
    assert_eq!(format!("{:?}", a), format!("{:?}", c));
}

#[test]
fn cfg_copies_change_the_same_setting() {
    let changes = vec![
        Cfg::Metric("accuracy".to_string()),
        Cfg::Data(texts(&["a b", "c"])),
        Cfg::Path("v.csv".to_string()),
        Cfg::Format("csv".to_string()),
        Cfg::Method("coverage".to_string()),
        Cfg::Threshold(7),
    ];
    for change in changes {
        let mut a = Config::default();
        let mut b = Config::default();
        a.update(change.clone());
        b.update(change);
        assert_eq!(format!("{:?}", a), format!("{:?}", b));
    }
}

#[test]
fn bisection_probes_the_middle_and_keeps_the_best() {
    let mut search = Bisection::new(10);
    assert_eq!(search.next(), Some(5));
    search.record(true, Toward::Fewer);
    assert_eq!(search.next(), Some(2));
    search.record(false, Toward::More);
    assert_eq!(search.next(), Some(3));
    search.record(false, Toward::Fewer);
    assert!(search.is_stopped());
    assert_eq!(search.next(), None);
    assert_eq!(search.best(), 5);
}

#[test]
fn bisection_stops_at_the_target_and_at_the_ends() {
    let mut met = Bisection::new(8);
    assert_eq!(met.next(), Some(4));
    met.record(true, Toward::Stop);
    assert_eq!(met.next(), None);
    assert_eq!(met.best(), 4);

    let mut none = Bisection::new(0);
    assert_eq!(none.next(), Some(0));
    none.record(false, Toward::Fewer);
    assert_eq!(none.next(), None);
    assert_eq!(none.best(), 0);

    let mut up = Bisection::new(3);
    let mut probes = Vec::new();
    while let Some(m) = up.next() {
        probes.push(m);
        up.record(true, Toward::More);
    }
    assert_eq!(probes, vec![1, 2, 3]);
    assert_eq!(up.best(), 3);
}

#[test]
fn decode_after_encode_normalizes_spacing() {
    let mut bpe = BPE::new();
    bpe.train(&texts(&["hello world", "low lower"]));
    let text = "  hello\t  world  lower ";
    assert!(bpe.can_encode_text(text));
    assert_eq!(bpe.decode(&bpe.encode(text)), "hello world lower");
    let tokenizer = Tokenizer::new(bpe);
    assert_eq!(tokenizer.detokenize(&tokenizer.tokenize("low hello")), "low hello");
}
