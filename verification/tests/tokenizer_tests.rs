use llm_scratch_rs::bpe::loading::LoadError;
use llm_scratch_rs::bpe::tokenizer::BytePair;
use llm_scratch_rs::sentence_piece::tokenizer::SentencePieceTokenizer;
use llm_scratch_rs::sentence_piece::viterbi::viterbi;
use llm_scratch_rs::token_table::TokenTable;

fn trained() -> BytePair {
    let mut bpe = BytePair::new();
    bpe.train("abababab", 259, None);
    bpe
}

#[test]
fn training_merges_frequent_neighbours() {
    let bpe = trained();
    assert_eq!(bpe.vocab.len(), 259);
    assert_eq!(bpe.vocab.get(97).map(|s| s.as_str()), Some("a"));
    assert_eq!(bpe.vocab.get(256).map(|s| s.as_str()), Some("Ġ"));
    assert_eq!(bpe.vocab.get(257).map(|s| s.as_str()), Some("ab"));
    assert_eq!(bpe.vocab.get(258).map(|s| s.as_str()), Some("abab"));
    assert_eq!(bpe.bpe_merges.get((97, 98)), Some(257));
    assert_eq!(bpe.bpe_merges.get((257, 257)), Some(258));
}

#[test]
fn pairs_are_counted_and_replaced() {
    let mut bpe = BytePair::new();
    assert_eq!(bpe.find_freq_pair(&vec![1, 2, 1, 2, 3], "most"), Some((1, 2)));
    assert_eq!(bpe.find_freq_pair(&vec![1, 1, 1, 2], "least"), Some((1, 2)));
    assert_eq!(bpe.find_freq_pair(&vec![1], "most"), None);
    assert_eq!(bpe.replace_pair(&mut vec![1, 1, 1, 2], &(1, 1), 9), vec![9, 1, 2]);
}

#[test]
fn plain_text_survives_a_round_trip() {
    let mut bpe = trained();
    let ids = bpe.encode("ab abab".to_string(), None).unwrap();
    assert_eq!(ids, vec![257, 256, 258]);
    assert_eq!(bpe.decode(ids).unwrap(), "ab abab");
    assert_eq!(bpe.decode(vec![99999]), Err("unknown id: 99999".to_string()));
}

#[test]
fn learned_merges_are_applied() {
    let mut bpe = BytePair::new();
    bpe.train("abab", 258, None);
    assert_eq!(bpe.bpe_merges.get((97, 98)), Some(257));
    assert_eq!(bpe.tokenize_with_bpe("Ġab"), Ok(vec![256, 257]));
    // What one pass merges, the next one can merge on.
    assert_eq!(trained().tokenize_with_bpe("Ġababab"), Ok(vec![256, 258, 257]));
}

#[test]
fn line_breaks_come_back_as_spaces() {
    let mut bpe = trained();
    let ids = bpe.encode("a\nb".to_string(), None).unwrap();
    assert_eq!(bpe.decode(ids).unwrap(), "a  b");
}

#[test]
fn texts_with_unknown_characters_are_not_encoded() {
    let mut bpe = trained();
    assert!(!bpe.can_encode("日", &None));
    assert!(bpe.try_encode("日".to_string(), None).is_none());
    assert!(bpe.try_encode("ab".to_string(), None).is_some());
    assert_eq!(bpe.tokenize_with_bpe("日"), Err("unknown token: '日'".to_string()));
}

#[test]
fn special_tokens_are_found_longest_first() {
    let mut bpe = BytePair::new();
    let specials = vec!["<|end|>".to_string(), "<|end|><|end|>".to_string()];
    bpe.train("ab", 260, Some(specials.clone()));
    let ids = bpe.encode("a<|end|><|end|>b<|end|>".to_string(), Some(specials)).unwrap();
    assert_eq!(ids, vec![97, 258, 98, 257]);
}

#[test]
fn a_special_token_parts_the_text() {
    let mut bpe = BytePair::new();
    let end = "<|end|>".to_string();
    bpe.train("ab ab", 259, Some(vec![end.clone()]));
    let left = bpe.encode("ab b".to_string(), None).unwrap();
    let right = bpe.encode("ba<|end|>".to_string(), Some(vec![end.clone()])).unwrap();
    let whole = bpe.encode("ab b<|end|>ba<|end|>".to_string(), Some(vec![end])).unwrap();
    assert_eq!(whole, [left, vec![257], right].concat());
}

#[test]
fn every_trained_character_can_be_encoded() {
    let mut bpe = BytePair::new();
    bpe.train("日本 日本", 300, None);
    let ids = bpe.encode("本日 a本".to_string(), None).unwrap();
    assert_eq!(bpe.decode(ids).unwrap(), "本日 a本");
}

#[test]
fn special_tokens_must_be_known_and_allowed() {
    let mut bpe = BytePair::new();
    bpe.train("ab", 258, Some(vec!["<|pad|>".to_string()]));
    assert_eq!(
        bpe.encode("a<|x|>".to_string(), Some(vec!["<|x|>".to_string()])),
        Err("Special token '<|x|>' not found in vocabulary".to_string())
    );
    assert_eq!(
        bpe.encode("a<|pad|>".to_string(), Some(vec!["b".to_string()])),
        Err("Disallowed special tokens encountered in text:[\"<|pad|>\"]".to_string())
    );
}

#[test]
fn metacharacters_are_escaped() {
    assert_eq!(BytePair::escape_regex("<|endoftext|>"), "<\\|endoftext\\|>");
    assert_eq!(BytePair::escape_regex("a.b"), "a\\.b");
}

#[test]
fn saved_vocabulary_and_merges_load_again() {
    let bpe = trained();
    let json = bpe.vocab_json().unwrap();
    let mut again = BytePair::new();
    assert!(again.load_vocab_and_merges(&json, bpe.merge_list()).is_ok());
    assert_eq!(again.vocab.len(), 259);
    assert_eq!(again.vocab.get(258).map(|s| s.as_str()), Some("abab"));
    assert_eq!(again.bpe_merges.get((97, 98)), Some(257));
    assert!(matches!(again.load_vocab_and_merges("nonsense", vec![]), Err(LoadError::Json(_))));
}

#[test]
fn published_vocabularies_load() {
    let mut bpe = BytePair::new();
    assert!(bpe.load_llm_vocab("{\"h\":0,\"e\":1,\"he\":2,\"Ġ\":3}").is_ok());
    // A line break is spelled with the id of a token that stands in for it.
    assert_eq!(bpe.vocab.get(3).map(|s| s.as_str()), Some("\n"));
    bpe.load_llm_merges("#version: 0.2\nh e\nbroken\nh x\n");
    assert_eq!(bpe.bpe_ranks.get("h", "e"), Some(0));
    assert_eq!(bpe.bpe_ranks.get("h", "x"), None);
    let symbols = vec!["h".to_string(), "e".to_string(), "h".to_string()];
    assert_eq!(bpe.merge_by_rank(symbols), vec!["he".to_string(), "h".to_string()]);
    assert_eq!(bpe.encode("he".to_string(), None), Ok(vec![2]));
    assert_eq!(bpe.tokenize_with_bpe("heh"), Ok(vec![2, 0]));
}

#[test]
fn vocabularies_without_a_stand_in_are_refused() {
    let mut bpe = BytePair::new();
    assert!(matches!(bpe.load_llm_vocab("{\"x\":0}"), Err(LoadError::NoNewline)));
    assert!(matches!(bpe.load_llm_vocab("["), Err(LoadError::Json(_))));
}

fn add(a: u64, b: u64) -> u64 {
    (f64::from_bits(a) + f64::from_bits(b)).to_bits()
}

fn share(count: u128, total: u128) -> u64 {
    (count as f64 / total as f64).ln().to_bits()
}

#[test]
fn the_best_segmentation_is_taken() {
    let mut vocab = TokenTable::new();
    vocab.insert("a".to_string(), (-3.0f64).to_bits());
    vocab.insert("b".to_string(), (-3.0f64).to_bits());
    vocab.insert("ab".to_string(), (-1.0f64).to_bits());
    assert_eq!(viterbi(&vocab, "aba", &add), vec!["ab".to_string(), "a".to_string()]);
    assert_eq!(viterbi(&vocab, "", &add), Vec::<String>::new());
    // Characters that cannot be spelled become the unknown token.
    assert_eq!(viterbi(&vocab, "a?", &add), vec!["a".to_string(), "<unk>".to_string()]);
}

#[test]
fn unigram_tokens_survive_a_round_trip() {
    let mut sp = SentencePieceTokenizer::new();
    let text = "the cat sat on the mat the cat ate the rat on the mat";
    sp.train(text, 20, None, &add, &share);
    assert!(sp.id_to_token.len() <= 20);
    // Every character of the text stays, and ids are in the order of the tokens.
    for c in ["▁", "t", "h", "e", "c", "a", "s", "o", "n", "m", "r", "<unk>"] {
        assert!(sp.id_to_token.contains(&c.to_string()));
    }
    assert!(sp.id_to_token.windows(2).all(|w| w[0] < w[1]));
    let ids = sp.encode("the cat sat", &add).unwrap();
    assert_eq!(sp.decode(&ids).unwrap(), "the cat sat");
    assert_eq!(sp.decode(&[99]), Err("unknown id: 99".to_string()));
    let unknown = sp.encode("the zebra", &add).unwrap();
    assert!(sp.decode(&unknown).unwrap().contains("<unk>"));
}

#[test]
fn a_tokenizer_without_ids_knows_no_token() {
    let mut vocab = TokenTable::new();
    vocab.insert("▁".to_string(), (-1.0f64).to_bits());
    vocab.insert("a".to_string(), (-1.0f64).to_bits());
    let mut empty = SentencePieceTokenizer::from_parts(vocab, vec!["a".to_string()]);
    assert_eq!(empty.encode("a", &add), Err("Unknown token: ▁".to_string()));
}

#[test]
fn seeds_hold_characters_and_frequent_parts() {
    let sp = SentencePieceTokenizer::new();
    let seed = sp.build_seed_vocab("aa aa", 3, 5, &share);
    // The marked text is "▁aa▁aa": beside the characters, three parts occur twice.
    for token in ["▁", "a", "▁a", "aa", "▁aa", "<unk>"] {
        assert!(seed.contains(token));
    }
    assert_eq!(seed.len(), 6);
    // Parts that reach the end of the text count too.
    let seed = sp.build_seed_vocab("ab", 16, 100, &share);
    for token in ["▁", "a", "b", "▁a", "ab", "▁ab"] {
        assert_eq!(seed.get(token), Some((1.0f64 / 6.0).ln().to_bits()));
    }
    assert_eq!(seed.get("<unk>"), Some((-1e10f64).to_bits()));
    assert_eq!(seed.len(), 7);
}

#[test]
fn a_small_vocabulary_gets_ids_too() {
    let mut sp = SentencePieceTokenizer::new();
    sp.train("ab", 20, None, &add, &share);
    assert_eq!(sp.id_to_token, vec!["<unk>", "a", "ab", "b", "▁", "▁a", "▁ab"]);
    assert_eq!(sp.encode("ab ba", &add), Ok(vec![6, 4, 3, 1]));
    assert_eq!(sp.decode(&[6, 4, 3, 1]).unwrap(), "ab ba");
}
