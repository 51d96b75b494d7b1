//! Texts, digests, maps of strings, documents, tokens and the server's answers.

use turboquant::code_embedder;
use turboquant::digest::{sha256_file_content, storage_name};
use turboquant::document::{
    count_tokens, count_types, find_document, Document, DocumentType, MemoryStats, RecallResult,
    SyncStats, TypeCounts,
};
use turboquant::embedder::{embed_tokens, mean_pool, pad_batch, ModelInputs, OnnxEmbedder};
use turboquant::tokenizing::{is_plain_for, Token};
use turboquant::error::{AgentMemoryError, EmbedderError, TurboError};
use turboquant::folding::fold;
use turboquant::json::{parse_string_map, render_string_map};
use turboquant::scalar::Scalar;
use turboquant::server::{
    default_doc_type, default_top_k, memory_ingest, memory_recall, open_failure, parse_doc_type,
    recall_answer, resolve_project_dir, show_type, stats_answer, sync_answer, IngestParams,
    RecallParams, StatsParams, SyncParams,
};
use turboquant::sorting::{leading, stable_order};
use turboquant::string_map::StringMap;
use turboquant::text::{decimal_text, first_chars, hex_text, parse_u64, same_text};

fn scalar(x: f32) -> Scalar {
    Scalar::from_bits(x.to_bits())
}

fn float(s: Scalar) -> f32 {
    f32::from_bits(s.to_bits())
}

fn scalars(v: &[f32]) -> Vec<Scalar> {
    v.iter().map(|&x| scalar(x)).collect()
}

fn floats(v: &[Scalar]) -> Vec<f32> {
    v.iter().map(|&s| float(s)).collect()
}

#[test]
fn numbers_are_written_and_read_in_decimal() {
    for n in [0u64, 7, 10, 99, 1234567890, u64::MAX] {
        assert_eq!(decimal_text(n), n.to_string());
        assert_eq!(parse_u64(&decimal_text(n)), Some(n));
    }
    for s in ["", "+", "-1", "12a", " 1", "18446744073709551616", "99999999999999999999999", "0x10", "+-1"] {
        assert_eq!(parse_u64(s), s.parse::<u64>().ok(), "{s}");
    }
    for s in ["+5", "007", "18446744073709551615", "00000000000000000000000000001"] {
        assert_eq!(parse_u64(s), s.parse::<u64>().ok(), "{s}");
    }
}

#[test]
fn bytes_are_written_in_lower_case_hexadecimal() {
    assert_eq!(hex_text(&[0x00, 0x0F, 0xA5, 0xFF]), "000fa5ff");
    assert_eq!(hex_text(&[]), "");
}

#[test]
fn characters_are_taken_whole() {
    assert_eq!(first_chars("h\u{e9}llo", 2), "h\u{e9}");
    assert_eq!(first_chars("abc", 10), "abc");
    assert_eq!(first_chars("abc", 0), "");
    assert!(same_text("abc", "abc"));
    assert!(!same_text("abc", "abd"));
    assert!(!same_text("abc", "ab"));
}

#[test]
fn contents_are_known_by_their_digest() {
    assert_eq!(
        sha256_file_content("abc"),
        "ba7816bf8f01cfea414140de5dae2223b00361a396177a9cb410ff61f20015ad"
    );
    assert_eq!(
        sha256_file_content(""),
        "e3b0c44298fc1c149afbf4c8996fb92427ae41e4649b934ca495991b7852b855"
    );
    assert_eq!(storage_name("abc"), "ba7816bf8f01cfea");
}

#[test]
fn maps_of_strings_are_written_and_read() {
    let mut map = StringMap::new();
    map.insert("a.md".to_string(), "1".to_string());
    map.insert("b \"quoted\"".to_string(), "2".to_string());
    map.insert("a.md".to_string(), "3".to_string());
    assert_eq!(map.get("a.md").map(|s| s.as_str()), Some("3"));
    assert_eq!(map.get("c"), None);
    let text = render_string_map(&map).unwrap();
    let back = parse_string_map(&text).unwrap();
    assert_eq!(back.get("a.md").map(|s| s.as_str()), Some("3"));
    assert_eq!(back.get("b \"quoted\"").map(|s| s.as_str()), Some("2"));
    assert_eq!(back.entries().len(), 2);
    map.remove("a.md");
    assert_eq!(map.get("a.md"), None);
    assert_eq!(map.entries().len(), 1);
    map.remove("a.md");
    assert_eq!(map.entries().len(), 1);
    assert_eq!(render_string_map(&StringMap::new()).unwrap(), "{}");
    assert_eq!(parse_string_map("{\"k\":\"v\"}").unwrap().get("k").map(|s| s.as_str()), Some("v"));
    for broken in ["", "[1]", "{\"k\":1}", "{\"k\":\"v\"} x"] {
        match parse_string_map(broken) {
            Err(AgentMemoryError::Serialization(m)) => {
                assert_eq!(m, serde_json::from_str::<std::collections::HashMap<String, String>>(broken).unwrap_err().to_string())
            }
            _ => panic!("{broken} was read"),
        }
    }
}

#[test]
fn of_two_entries_with_one_key_the_later_counts() {
    let map = StringMap::from_entries(vec![
        ("k".to_string(), "old".to_string()),
        ("l".to_string(), "other".to_string()),
        ("k".to_string(), "new".to_string()),
    ]);
    assert_eq!(map.get("k").map(|s| s.as_str()), Some("new"));
    assert_eq!(map.clone().entries().len(), 2);
}

#[test]
fn a_document_keeps_a_preview_of_itself() {
    let long: String = "\u{4e16}".repeat(250);
    let doc = Document::at(7, DocumentType::RCA, long.clone(), 42);
    assert_eq!((doc.id, doc.timestamp, doc.token_count), (7, 42, 0));
    assert_eq!(doc.content, long);
    assert_eq!(doc.content_preview, "\u{4e16}".repeat(200));
    assert!(doc.source_path.is_none());
    assert!(doc.metadata.entries().is_empty());
    let before = std::time::SystemTime::now().duration_since(std::time::UNIX_EPOCH).unwrap().as_millis() as u64;
    let dated = Document::new(8, DocumentType::Plan, "short".to_string());
    let after = std::time::SystemTime::now().duration_since(std::time::UNIX_EPOCH).unwrap().as_millis() as u64;
    assert!(before <= dated.timestamp && dated.timestamp <= after);
    assert_eq!(dated.content_preview, "short");
}

#[test]
fn documents_are_counted_by_type() {
    let mut docs: Vec<Document> = Vec::new();
    for (i, t) in [
        DocumentType::Plan,
        DocumentType::Custom("note".to_string()),
        DocumentType::Plan,
        DocumentType::Custom("other".to_string()),
    ]
    .iter()
    .enumerate()
    {
        let mut doc = Document::at(i as u64, t.clone(), "x".to_string(), 0);
        doc.token_count = 10 + i;
        docs.push(doc);
    }
    let counts = count_types(&docs);
    assert_eq!(counts.get(&DocumentType::Plan), Some(2));
    assert_eq!(counts.get(&DocumentType::Custom("note".to_string())), Some(1));
    assert_eq!(counts.get(&DocumentType::Custom("none".to_string())), None);
    assert_eq!(counts.get(&DocumentType::ToolResult), None);
    assert_eq!(counts.counts.len(), 3);
    assert_eq!(count_tokens(&docs), 46);
    assert_eq!(find_document(&docs, 2), Some(2));
    assert_eq!(find_document(&docs, 9), None);
    assert!(!DocumentType::Memory.same_as(&DocumentType::CommitContext));
}

#[test]
fn equal_keys_keep_their_order() {
    assert_eq!(stable_order(&vec![3, 1, 2, 1, 3]), vec![1, 3, 2, 0, 4]);
    assert_eq!(stable_order(&vec![]), Vec::<usize>::new());
    assert_eq!(leading(&vec![3, 1, 2, 1, 3], 3), vec![1, 3, 2]);
    assert_eq!(leading(&vec![3, 1], 5), vec![1, 0]);
}

#[test]
fn a_fold_goes_through_both_lists() {
    let sum = fold(
        &scalars(&[1.0, 2.0, 3.0]),
        &scalars(&[10.0, 20.0, 30.0]),
        &|s: Scalar, x: Scalar, y: Scalar| scalar(float(s) + float(x) * float(y)),
    );
    assert_eq!(float(sum), 140.0);
}

#[test]
fn scalars_are_ordered_as_floats_are() {
    let values = [
        f32::NEG_INFINITY, -2.5, -1e-45, -0.0, 0.0, 1e-45, 0.5, 1.0, 2.5, f32::INFINITY, f32::NAN,
    ];
    for a in values {
        for b in values {
            assert_eq!(scalar(a).is_greater(scalar(b)), a > b, "{a} > {b}");
            assert_eq!(scalar(a).is_at_least(scalar(b)), a >= b, "{a} >= {b}");
        }
        assert_eq!(scalar(a).is_nan(), a.is_nan());
        if !a.is_nan() {
            assert_eq!(float(scalar(a).clamp_unit()), a.clamp(0.0, 1.0));
        }
    }
    assert!(float(scalar(f32::NAN).clamp_unit()).is_nan());
    // The largest comes first, and what has no order comes last.
    assert!(scalar(2.0).sort_key() < scalar(1.0).sort_key());
    assert_eq!(scalar(0.0).sort_key(), scalar(-0.0).sort_key());
    assert!(scalar(f32::NEG_INFINITY).sort_key() < scalar(f32::NAN).sort_key());
}

fn token(id: u32, mask: u32) -> Token {
    Token { id, mask, type_id: id % 2 }
}

fn plus(a: Scalar, b: Scalar) -> Scalar {
    scalar(float(a) + float(b))
}

fn divided(a: Scalar, n: usize) -> Scalar {
    scalar(float(a) / n as f32)
}

fn normalized(v: &Vec<Scalar>) -> Vec<Scalar> {
    let norm = floats(v).iter().map(|x| x * x).sum::<f32>().sqrt();
    if norm > 0.0 {
        v.iter().map(|x| scalar(float(*x) / norm)).collect()
    } else {
        v.clone()
    }
}

fn untouched(v: &Vec<Scalar>) -> Vec<Scalar> {
    v.clone()
}

#[test]
fn a_batch_is_padded_to_its_longest_text() {
    let batch = vec![vec![token(5, 1), token(6, 1), token(7, 1)], vec![token(8, 1)], vec![]];
    let inputs = pad_batch(&batch, true);
    assert_eq!((inputs.rows, inputs.columns), (3, 3));
    assert_eq!(inputs.input_ids, vec![5, 6, 7, 8, 0, 0, 0, 0, 0]);
    assert_eq!(inputs.attention_mask, vec![1, 1, 1, 1, 0, 0, 0, 0, 0]);
    assert_eq!(inputs.token_type_ids, Some(vec![1, 0, 1, 0, 0, 0, 0, 0, 0]));
    let bare = pad_batch(&batch, false);
    assert_eq!(bare.token_type_ids, None);
    let none = pad_batch(&vec![], false);
    assert_eq!((none.rows, none.columns), (0, 0));
    assert!(none.input_ids.is_empty());
}

#[test]
fn pooling_takes_the_mean_over_the_tokens_that_count() {
    let batch = vec![vec![token(5, 1), token(6, 0), token(7, 1)], vec![token(8, 0)]];
    let hidden = scalars(&[1.0, 2.0, 100.0, 100.0, 3.0, 6.0, 9.0, 9.0, 9.0, 9.0, 9.0, 9.0]);
    let pooled = mean_pool(&batch, &hidden, 3, 2, &plus, &divided, &untouched);
    assert_eq!(pooled.len(), 2);
    assert_eq!(floats(&pooled[0]), vec![2.0, 4.0]);
    // A text of which no token counts stays at zero.
    assert_eq!(floats(&pooled[1]), vec![0.0, 0.0]);
    let unit = mean_pool(&batch, &hidden, 3, 2, &plus, &divided, &normalized);
    let norm: f32 = floats(&unit[0]).iter().map(|x| x * x).sum();
    assert!((norm - 1.0).abs() < 1e-6);
}

#[test]
fn a_model_that_fails_is_heard() {
    let batch = vec![vec![token(5, 1)]];
    let failed = embed_tokens(
        &batch,
        2,
        false,
        |_inputs: &ModelInputs| Err("ort run: no device".to_string()),
        &plus,
        &divided,
        &untouched,
    );
    assert_eq!(failed.unwrap_err(), "ort run: no device");
}

fn words() -> tokenizers::Tokenizer {
    let json = "{\"version\":\"1.0\",\"truncation\":null,\"padding\":null,\"added_tokens\":[],\
        \"normalizer\":null,\"pre_tokenizer\":{\"type\":\"Whitespace\"},\"post_processor\":null,\
        \"decoder\":null,\"model\":{\"type\":\"WordLevel\",\
        \"vocab\":{\"[UNK]\":0,\"alpha\":1,\"beta\":2,\"gamma\":3},\"unk_token\":\"[UNK]\"}}";
    json.parse().unwrap()
}

/// A model whose hidden state of a token is the token and its square.
fn squares(inputs: &ModelInputs) -> Result<Vec<Scalar>, String> {
    let mut hidden: Vec<Scalar> = Vec::new();
    for &id in &inputs.input_ids {
        hidden.push(scalar(id as f32));
        hidden.push(scalar((id * id) as f32));
    }
    Ok(hidden)
}

#[test]
fn texts_are_embedded_through_their_tokens() {
    let emb = OnnxEmbedder::new(words(), 2, false);
    assert_eq!(emb.dim(), 2);
    let batch = emb
        .embed_texts(&["alpha gamma", "beta", "delta"], squares, &plus, &divided, &untouched)
        .unwrap();
    let seen: Vec<Vec<f32>> = batch.iter().map(|v| floats(v)).collect();
    assert_eq!(seen, vec![vec![2.0, 5.0], vec![2.0, 4.0], vec![0.0, 0.0]]);
    let one = emb.embed("alpha gamma", squares, &plus, &divided, &untouched).unwrap();
    assert_eq!(floats(&one), seen[0]);
    match emb.embed("alpha", |_i: &ModelInputs| Err("ort run: broken".to_string()), &plus, &divided, &untouched) {
        Err(e) => assert_eq!(e.message(), "embedder error: ort run: broken"),
        Ok(_) => panic!("a failed run gave a vector"),
    }
}

/// A tokenizer with the given settings; each is JSON.
fn tokenizer(truncation: &str, added: &str, normalizer: &str, pre: &str, post: &str) -> tokenizers::Tokenizer {
    let json = format!(
        "{{\"version\":\"1.0\",\"truncation\":{truncation},\"padding\":null,\"added_tokens\":{added},\
         \"normalizer\":{normalizer},\"pre_tokenizer\":{pre},\"post_processor\":{post},\
         \"decoder\":null,\"model\":{{\"type\":\"WordLevel\",\
         \"vocab\":{{\"[UNK]\":0,\"alpha\":1,\"beta\":2,\"gamma\":3,\"[CLS]\":4,\"b\":5}},\"unk_token\":\"[UNK]\"}}}}"
    );
    json.parse().unwrap()
}

const SPACES: &str = "{\"type\":\"Whitespace\"}";

fn cut_to(longest: usize, overlap: usize) -> String {
    format!(
        "{{\"direction\":\"Right\",\"max_length\":{longest},\"strategy\":\"LongestFirst\",\"stride\":{overlap}}}"
    )
}

/// A template of the given pieces that knows `[CLS]`.
fn template(single: &str) -> String {
    format!(
        "{{\"type\":\"TemplateProcessing\",\"single\":[{single}],\
         \"pair\":[{{\"Sequence\":{{\"id\":\"A\",\"type_id\":0}}}},{{\"Sequence\":{{\"id\":\"B\",\"type_id\":1}}}}],\
         \"special_tokens\":{{\"[CLS]\":{{\"id\":\"[CLS]\",\"ids\":[4],\"tokens\":[\"[CLS]\"]}}}}}}"
    )
}

const CLS: &str = "{\"SpecialToken\":{\"id\":\"[CLS]\",\"type_id\":0}}";
const SEP: &str = "{\"SpecialToken\":{\"id\":\"[SEP]\",\"type_id\":0}}";
const TEXT: &str = "{\"Sequence\":{\"id\":\"A\",\"type_id\":0}}";
const OTHER: &str = "{\"Sequence\":{\"id\":\"B\",\"type_id\":0}}";

fn sums(emb: &OnnxEmbedder, text: &str) -> Result<Vec<f32>, String> {
    match emb.embed(text, squares, &plus, &divided, &untouched) {
        Ok(v) => Ok(floats(&v)),
        Err(e) => Err(e.message()),
    }
}

/// The tokenizer is not known to deal with the text, and nothing is done where that is asked.
fn unknown(t: tokenizers::Tokenizer, text: &str) -> OnnxEmbedder {
    assert!(!is_plain_for(&t, &[text]));
    let emb = OnnxEmbedder::new(t, 2, false);
    let run = |_inputs: &ModelInputs| -> Result<Vec<Scalar>, String> { panic!("the model was run") };
    assert!(emb.embed_checked(&[text], run, &plus, &divided, &untouched).is_none());
    let none = emb.embed_checked(&[], squares, &plus, &divided, &untouched).unwrap().unwrap();
    assert!(none.is_empty());
    emb
}

/// The tokenizer is known to deal with the text.
fn plain(t: tokenizers::Tokenizer, text: &str) -> Vec<f32> {
    assert!(is_plain_for(&t, &[text]));
    let emb = OnnxEmbedder::new(t, 2, false);
    let checked = emb.embed_checked(&[text], squares, &plus, &divided, &untouched).unwrap().unwrap();
    assert_eq!(floats(&checked[0]), sums(&emb, text).unwrap());
    floats(&checked[0])
}

const ABC: &str = "alpha beta gamma";

#[test]
fn a_tokenizer_that_cuts_leaves_room_for_what_it_adds() {
    let framed = template(&format!("{CLS},{TEXT}"));
    // alpha beta gamma: tokens 1, 2 and 3.
    assert_eq!(plain(tokenizer("null", "[]", "null", SPACES, "null"), ABC), vec![2.0, 14.0 / 3.0]);
    assert_eq!(plain(tokenizer(&cut_to(2, 1), "[]", "null", SPACES, "null"), ABC), vec![1.5, 2.5]);
    unknown(tokenizer(&cut_to(2, 2), "[]", "null", SPACES, "null"), ABC);
    // The special token takes one of the places.
    assert_eq!(plain(tokenizer(&cut_to(2, 0), "[]", "null", SPACES, &framed), ABC), vec![2.5, 8.5]);
    assert_eq!(plain(tokenizer(&cut_to(1, 5), "[]", "null", SPACES, &framed), ABC), vec![4.0, 16.0]);
    unknown(tokenizer(&cut_to(0, 0), "[]", "null", SPACES, &framed), ABC);
    // A text that need not be cut is embedded whatever the overlap is.
    let emb = unknown(tokenizer(&cut_to(2, 1), "[]", "null", SPACES, &framed), "beta");
    assert_eq!(sums(&emb, "beta").unwrap(), vec![3.0, 10.0]);
    let twice = template(&format!("{CLS},{TEXT},{CLS}"));
    let emb = unknown(tokenizer(&cut_to(10, 8), "[]", "null", SPACES, &twice), ABC);
    assert_eq!(sums(&emb, ABC).unwrap(), vec![2.8, 9.2]);
}

#[test]
fn a_tokenizer_that_pads_does_so_to_a_moderate_length() {
    let padded = |length: Option<usize>, multiple: Option<usize>| {
        let mut t = tokenizer("null", "[]", "null", SPACES, "null");
        t.with_padding(Some(tokenizers::PaddingParams {
            strategy: match length {
                Some(n) => tokenizers::PaddingStrategy::Fixed(n),
                None => tokenizers::PaddingStrategy::BatchLongest,
            },
            pad_to_multiple_of: multiple,
            ..Default::default()
        }));
        t
    };
    assert_eq!(plain(padded(None, None), ABC), vec![2.0, 14.0 / 3.0]);
    assert_eq!(plain(padded(Some(8), None), ABC), vec![2.0, 14.0 / 3.0]);
    unknown(padded(Some(65537), None), ABC);
    let emb = unknown(padded(None, Some(4)), ABC);
    assert_eq!(sums(&emb, ABC).unwrap(), vec![2.0, 14.0 / 3.0]);
}

#[test]
fn a_template_has_what_it_names() {
    let fine = template(&format!("{CLS},{TEXT}"));
    let lacking = template(&format!("{CLS},{TEXT},{SEP}"));
    let second = template(&format!("{TEXT},{OTHER}"));
    let bytes = "{\"type\":\"ByteLevel\",\"add_prefix_space\":true,\"trim_offsets\":false,\"use_regex\":true}";
    let bert = "{\"type\":\"BertProcessing\",\"sep\":[\"b\",5],\"cls\":[\"[CLS]\",4]}";
    let roberta = "{\"type\":\"RobertaProcessing\",\"sep\":[\"b\",5],\"cls\":[\"[CLS]\",4],\
                   \"trim_offsets\":true,\"add_prefix_space\":true}";
    let sequence = |list: &[&str]| format!("{{\"type\":\"Sequence\",\"processors\":[{}]}}", list.join(","));
    assert_eq!(plain(tokenizer("null", "[]", "null", SPACES, &fine), ABC), vec![2.5, 7.5]);
    assert_eq!(plain(tokenizer("null", "[]", "null", SPACES, bert), ABC), vec![3.0, 11.0]);
    unknown(tokenizer("null", "[]", "null", SPACES, &lacking), ABC);
    unknown(tokenizer("null", "[]", "null", SPACES, &second), ABC);
    // These are not known to deal with every text, and deal with this one.
    for (post, expected) in [
        (bytes.to_string(), vec![2.0, 14.0 / 3.0]),
        (roberta.to_string(), vec![3.0, 11.0]),
        (sequence(&[bytes, &fine]), vec![2.5, 7.5]),
    ] {
        let emb = unknown(tokenizer("null", "[]", "null", SPACES, &post), ABC);
        assert_eq!(sums(&emb, ABC).unwrap(), expected);
    }
}

#[test]
fn common_normalizers_and_pre_tokenizers_are_plain() {
    let small = "{\"type\":\"Lowercase\"}";
    let bert = "{\"type\":\"BertNormalizer\",\"clean_text\":true,\"handle_chinese_chars\":true,\
                \"strip_accents\":null,\"lowercase\":true}";
    assert_eq!(plain(tokenizer("null", "[]", "null", SPACES, "null"), "ALPHA"), vec![0.0, 0.0]);
    assert_eq!(plain(tokenizer("null", "[]", small, SPACES, "null"), "ALPHA"), vec![1.0, 1.0]);
    assert_eq!(plain(tokenizer("null", "[]", bert, SPACES, "null"), "B\u{e9}ta"), vec![2.0, 4.0]);
    for pre in ["{\"type\":\"BertPreTokenizer\"}", "{\"type\":\"WhitespaceSplit\"}"] {
        assert_eq!(plain(tokenizer("null", "[]", "null", pre, "null"), "alpha gamma"), vec![2.0, 5.0]);
    }
    assert_eq!(plain(tokenizer("null", "[]", "null", "null", "null"), "gamma"), vec![3.0, 9.0]);
    let replace = "{\"type\":\"Replace\",\"pattern\":{\"String\":\"x\"},\"content\":\"alpha\"}";
    let list = format!("{{\"type\":\"Sequence\",\"normalizers\":[{small}]}}");
    for (normalizer, text) in [(replace, "x"), (list.as_str(), "ALPHA")] {
        let emb = unknown(tokenizer("null", "[]", normalizer, SPACES, "null"), text);
        assert_eq!(sums(&emb, text).unwrap(), vec![1.0, 1.0]);
    }
    let by = |n: usize| format!("{{\"type\":\"FixedLength\",\"length\":{n}}}");
    let emb = unknown(tokenizer("null", "[]", "null", &by(16), "null"), ABC);
    assert_eq!(sums(&emb, ABC).unwrap(), vec![0.0, 0.0]);
    unknown(tokenizer("null", "[]", "null", &by(0), "null"), ABC);
}

#[test]
fn added_tokens_are_plain_where_they_keep_to_themselves() {
    let added = |before: bool, after: bool| {
        format!(
            "[{{\"id\":6,\"content\":\"!\",\"single_word\":false,\"lstrip\":{before},\"rstrip\":{after},\
             \"normalized\":false,\"special\":true}}]"
        )
    };
    assert_eq!(plain(tokenizer("null", &added(false, false), "null", SPACES, "null"), "beta!"), vec![4.0, 20.0]);
    for (before, after) in [(true, false), (false, true)] {
        let emb = unknown(tokenizer("null", &added(before, after), "null", SPACES, "null"), "beta ! ");
        assert_eq!(sums(&emb, "beta ! ").unwrap(), vec![4.0, 20.0]);
    }
    // Beside added tokens, only texts in ASCII are.
    let emb = unknown(tokenizer("null", &added(false, false), "null", SPACES, "null"), "b\u{e9}ta!");
    assert_eq!(sums(&emb, "b\u{e9}ta!").unwrap(), vec![3.0, 18.0]);
    assert_eq!(plain(tokenizer("null", "[]", "null", SPACES, "null"), "b\u{e9}ta"), vec![0.0, 0.0]);
}

#[test]
fn code_is_embedded_in_more_dimensions() {
    let emb = code_embedder::OnnxEmbedder::new(words(), true);
    assert_eq!(emb.dim(), 768);
    let run = |inputs: &ModelInputs| -> Result<Vec<Scalar>, String> {
        assert!(inputs.token_type_ids.is_some());
        let mut hidden: Vec<Scalar> = Vec::new();
        for &id in &inputs.input_ids {
            for d in 0..768 {
                hidden.push(scalar((id * (d + 1)) as f32));
            }
        }
        Ok(hidden)
    };
    let batch = emb.embed_batch(&["alpha gamma", "beta"], run, &plus, &divided, &untouched).unwrap();
    assert_eq!(batch.len(), 2);
    assert_eq!(float(batch[0][0]), 2.0);
    assert_eq!(float(batch[1][767]), 1536.0);
    let one = emb.embed("beta", run, &plus, &divided, &untouched).unwrap();
    assert_eq!(floats(&one), floats(&batch[1]));
    let checked = emb.embed_checked(&["alpha gamma", "beta"], run, &plus, &divided, &untouched).unwrap().unwrap();
    assert_eq!(floats(&checked[0]), floats(&batch[0]));
    let odd = code_embedder::OnnxEmbedder::new(tokenizer(&cut_to(2, 2), "[]", "null", SPACES, "null"), true);
    assert!(odd.embed_checked(&["beta"], run, &plus, &divided, &untouched).is_none());
    assert_eq!(floats(&odd.embed_batch(&["beta"], run, &plus, &divided, &untouched).unwrap()[0]), floats(&batch[1]));
    match emb.embed("alpha", |_i: &ModelInputs| Err("ort run: broken".to_string()), &plus, &divided, &untouched) {
        Err(e) => assert_eq!(e.message(), "embedder error: ort run: broken"),
        Ok(_) => panic!("a failed run gave a vector"),
    }
    assert_eq!(EmbedderError::Io("gone".to_string()).message(), "IO error: gone");
}

#[test]
fn errors_are_told_in_words() {
    assert_eq!(TurboError::Io("gone".to_string()).message(), "IO error: gone");
    assert_eq!(TurboError::Storage("torn".to_string()).message(), "storage error: torn");
    assert_eq!(
        AgentMemoryError::Turbo(TurboError::NotFound(3)).message(),
        "turboquant error: index not found: 3"
    );
    assert_eq!(AgentMemoryError::Io("gone".to_string()).message(), "IO error: gone");
    assert_eq!(AgentMemoryError::Embedder("no".to_string()).message(), "embedder error: no");
    assert_eq!(AgentMemoryError::Serialization("x".to_string()).message(), "serialization error: x");
    assert_eq!(AgentMemoryError::NotFound("y".to_string()).message(), "not found: y");
    assert_eq!(
        open_failure(&AgentMemoryError::Io("gone".to_string())),
        "Failed to open memory: IO error: gone"
    );
}

fn asked(content: Option<&str>, path: Option<&str>, glob: Option<&str>, doc_type: Option<&str>) -> IngestParams {
    IngestParams {
        content: content.map(|s| s.to_string()),
        path: path.map(|s| s.to_string()),
        glob: glob.map(|s| s.to_string()),
        doc_type: doc_type.map(|s| s.to_string()),
        project_dir: None,
    }
}

fn answered(params: &IngestParams) -> Result<String, String> {
    memory_ingest(
        params,
        |pattern: &str, t: DocumentType| {
            assert!(t.same_as(&DocumentType::Plan));
            if pattern == "[" {
                Err(AgentMemoryError::Embedder("invalid glob pattern".to_string()))
            } else {
                Ok(12)
            }
        },
        |path: &str| if path == "gone" { Err("No such file".to_string()) } else { Ok("text".to_string()) },
        |text: &str, _t: DocumentType, source: Option<&str>| {
            if text == "bad" {
                Err(AgentMemoryError::Io("disk full".to_string()))
            } else {
                Ok(if source.is_some() { 40 } else { 50 })
            }
        },
    )
}

#[test]
fn ingesting_answers_what_was_taken_in() {
    let everything = asked(Some("c"), Some("p"), Some("*.md"), Some("Plan"));
    assert_eq!(answered(&everything).unwrap(), "Ingested 12 files matching '*.md'");
    assert_eq!(
        answered(&asked(None, None, Some("["), Some("Plan"))).unwrap_err(),
        "Glob ingest failed: embedder error: invalid glob pattern"
    );
    assert_eq!(
        answered(&asked(Some("c"), Some("notes.md"), None, None)).unwrap(),
        "Ingested file 'notes.md' (doc id: 40)"
    );
    assert_eq!(
        answered(&asked(None, Some("gone"), None, None)).unwrap_err(),
        "Failed to read file 'gone': No such file"
    );
    assert_eq!(
        answered(&asked(Some("h\u{e9}llo"), None, None, None)).unwrap(),
        "Ingested text (doc id: 50, 6 chars): \"h\u{e9}llo...\""
    );
    let long = "x".repeat(100);
    assert_eq!(
        answered(&asked(Some(&long), None, None, None)).unwrap(),
        format!("Ingested text (doc id: 50, 100 chars): \"{}...\"", "x".repeat(80))
    );
    assert_eq!(
        answered(&asked(Some("bad"), None, None, None)).unwrap_err(),
        "Ingest failed: IO error: disk full"
    );
    assert_eq!(
        answered(&asked(None, None, None, None)).unwrap_err(),
        "No content, path, or glob provided. Supply at least one."
    );
}

#[test]
fn one_source_is_ingested_and_no_other() {
    let take = |params: &IngestParams| {
        let globs = std::cell::RefCell::new(Vec::new());
        let reads = std::cell::RefCell::new(Vec::new());
        let texts = std::cell::RefCell::new(Vec::new());
        let answer = memory_ingest(
            params,
            |pattern: &str, t: DocumentType| {
                globs.borrow_mut().push((pattern.to_string(), show_type(&t)));
                Ok(2)
            },
            |path: &str| {
                reads.borrow_mut().push(path.to_string());
                Ok("inside".to_string())
            },
            |text: &str, t: DocumentType, source: Option<&str>| {
                texts.borrow_mut().push((text.to_string(), show_type(&t), source.map(|s| s.to_string())));
                Ok(7)
            },
        );
        (answer.is_ok(), globs.into_inner(), reads.into_inner(), texts.into_inner())
    };
    let plan = || "Plan".to_string();
    let all = asked(Some("text"), Some("file"), Some("*.md"), Some("Plan"));
    assert_eq!(take(&all), (true, vec![("*.md".to_string(), plan())], vec![], vec![]));
    let file = asked(Some("text"), Some("file"), None, Some("Plan"));
    let inside = ("inside".to_string(), plan(), Some("file".to_string()));
    assert_eq!(take(&file), (true, vec![], vec!["file".to_string()], vec![inside]));
    let text = asked(Some("text"), None, None, Some("Plan"));
    assert_eq!(take(&text), (true, vec![], vec![], vec![("text".to_string(), plan(), None)]));
    let nothing = asked(None, None, None, Some("Plan"));
    assert_eq!(take(&nothing), (false, vec![], vec![], vec![]));
}

#[test]
fn the_type_asked_for_reaches_the_memory() {
    let params = asked(Some("text"), None, None, None);
    let untyped = memory_ingest(
        &params,
        |_p: &str, _t: DocumentType| Ok(0),
        |_p: &str| Ok(String::new()),
        |_x: &str, t: DocumentType, _s: Option<&str>| {
            assert!(t.same_as(&DocumentType::Custom("Custom".to_string())));
            Ok(1)
        },
    );
    assert!(untyped.is_ok());
    assert!(parse_doc_type("Plan").same_as(&DocumentType::Plan));
    assert!(parse_doc_type("Memory").same_as(&DocumentType::Memory));
    assert!(parse_doc_type("RCA").same_as(&DocumentType::RCA));
    assert!(parse_doc_type("CommitContext").same_as(&DocumentType::CommitContext));
    assert!(parse_doc_type("Custom").same_as(&DocumentType::Custom("Custom".to_string())));
    assert!(parse_doc_type("ToolResult").same_as(&DocumentType::Custom("ToolResult".to_string())));
    assert!(parse_doc_type("plan").same_as(&DocumentType::Custom("plan".to_string())));
    assert_eq!(default_doc_type(), Some("Custom".to_string()));
    assert_eq!(default_top_k(), Some(5));
}

#[test]
fn a_project_is_the_one_named_or_the_one_here() {
    assert_eq!(resolve_project_dir(Some("/a"), Some("/b")), "/a");
    assert_eq!(resolve_project_dir(None, Some("/b")), "/b");
    assert_eq!(resolve_project_dir(None, None), ".");
    let sync = SyncParams { project_dir: Some("/a".to_string()) };
    assert_eq!(resolve_project_dir(sync.project_dir.as_deref(), None), "/a");
    let stats = StatsParams { project_dir: None };
    assert_eq!(resolve_project_dir(stats.project_dir.as_deref(), Some("/c")), "/c");
}

fn hit(id: u64, doc_type: DocumentType, source: Option<&str>, score: f32) -> RecallResult {
    let mut document = Document::at(id, doc_type, format!("content {id}"), 0);
    document.source_path = source.map(|s| s.to_string());
    RecallResult {
        document,
        relevance_score: scalar(score),
        recency_score: scalar(score),
        combined_score: scalar(score),
    }
}

fn three_places(s: Scalar) -> String {
    format!("{:.3}", float(s))
}

#[test]
fn recalling_answers_each_document() {
    let results = vec![
        hit(1, DocumentType::Plan, None, 0.71239),
        hit(2, DocumentType::Custom("it's \"odd\"\n".to_string()), Some("a.md"), 0.5),
    ];
    let expected = "Found 2 relevant documents:\n\n\
        --- Result 1 (score: 0.712, type: Plan) ---\nSource: (inline)\ncontent 1\n\n\
        --- Result 2 (score: 0.500, type: Custom(\"it's \\\"odd\\\"\\n\")) ---\nSource: a.md\ncontent 2\n\n";
    assert_eq!(recall_answer(&results, &three_places), expected);
    assert_eq!(recall_answer(&vec![], &three_places), "No relevant documents found.");
    for t in [
        DocumentType::Plan,
        DocumentType::Memory,
        DocumentType::RCA,
        DocumentType::CommitContext,
        DocumentType::ConversationTurn,
        DocumentType::ToolResult,
        DocumentType::Custom("a\\b".to_string()),
    ] {
        assert_eq!(show_type(&t), format!("{t:?}"));
    }
}

#[test]
fn recalling_asks_for_what_was_asked() {
    let params = RecallParams {
        query: "search".to_string(),
        top_k: None,
        doc_types: Some(vec!["Plan".to_string(), "note".to_string()]),
        project_dir: None,
    };
    let answer = memory_recall(
        &params,
        |q: &str, n: usize, types: &Vec<DocumentType>| {
            assert_eq!((q, n, types.len()), ("search", 5, 2));
            assert!(types[0].same_as(&DocumentType::Plan));
            assert!(types[1].same_as(&DocumentType::Custom("note".to_string())));
            Ok(vec![hit(1, DocumentType::Plan, None, 0.25)])
        },
        &three_places,
    );
    assert_eq!(
        answer.unwrap(),
        "Found 1 relevant documents:\n\n\
         --- Result 1 (score: 0.250, type: Plan) ---\nSource: (inline)\ncontent 1\n\n"
    );
    let all = RecallParams { query: "q".to_string(), top_k: Some(3), doc_types: None, project_dir: None };
    let failed = memory_recall(
        &all,
        |_q: &str, n: usize, types: &Vec<DocumentType>| {
            assert_eq!((n, types.len()), (3, 0));
            Err(AgentMemoryError::NotFound("x".to_string()))
        },
        &three_places,
    );
    assert_eq!(failed.unwrap_err(), "Recall failed: not found: x");
}

#[test]
fn syncing_and_counting_answer_in_numbers() {
    let done = Ok(SyncStats { added: 1, updated: 20, removed: 3, unchanged: 400 });
    assert_eq!(
        sync_answer(&done).unwrap(),
        "Sync complete: 1 added, 20 updated, 3 removed, 400 unchanged"
    );
    let failed = Err(AgentMemoryError::Io("gone".to_string()));
    assert_eq!(sync_answer(&failed).unwrap_err(), "Sync failed: IO error: gone");
    let empty = MemoryStats {
        total_documents: 0,
        total_tokens: 0,
        index_size_bytes: 0,
        by_type: TypeCounts { counts: vec![] },
    };
    assert_eq!(
        stats_answer("/p", &empty),
        "Memory stats for project: /p\nTotal documents: 0\nTotal tokens (approx): 0\n\
         Index size: 0 bytes\nBy type:\n  (none)\n"
    );
    let some = MemoryStats {
        total_documents: 3,
        total_tokens: 1234,
        index_size_bytes: 4096,
        by_type: TypeCounts {
            counts: vec![(DocumentType::Plan, 2), (DocumentType::Custom("n".to_string()), 1)],
        },
    };
    assert_eq!(
        stats_answer("/p", &some),
        "Memory stats for project: /p\nTotal documents: 3\nTotal tokens (approx): 1234\n\
         Index size: 4096 bytes\nBy type:\n  Plan: 2\n  Custom(\"n\"): 1\n"
    );
}
