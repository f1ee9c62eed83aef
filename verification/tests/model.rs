use git_embed::batches::pack;
use git_embed::chunks::{chunk_room, split_chunks};
use git_embed::definition::{is_certain, is_searching};
use git_embed::model::{
    download_url, files_to_download, model_files, model_ready, run_batches, EmbedModel, ModelError, Piece,
    CHUNK_THRESHOLD, MODEL_DIMS, PREFIX_DOCUMENT, PREFIX_QUERY,
};
use git_embed::tokens::{make_tokenizer, pad_batch, Encoded, TokenizerError};
use std::cell::RefCell;

/// A tokenizer that knows two words, and puts a token before and behind every text.
fn definition() -> String {
    let added = |id: usize, content: &str| {
        format!(
            "{{\"id\":{},\"content\":\"{}\",\"single_word\":false,\"lstrip\":false,\
             \"rstrip\":false,\"normalized\":false,\"special\":true}}",
            id, content
        )
    };
    format!(
        "{{\"version\":\"1.0\",\"truncation\":{{\"direction\":\"Right\",\"max_length\":3,\
         \"strategy\":\"LongestFirst\",\"stride\":0}},\"padding\":{{\"strategy\":{{\"Fixed\":9}},\
         \"direction\":\"Right\",\"pad_to_multiple_of\":null,\"pad_id\":0,\"pad_type_id\":0,\
         \"pad_token\":\"[UNK]\"}},\"added_tokens\":[{},{},{}],\"normalizer\":null,\
         \"pre_tokenizer\":{{\"type\":\"Whitespace\"}},\"post_processor\":\
         {{\"type\":\"BertProcessing\",\"sep\":[\"[SEP]\",2],\"cls\":[\"[CLS]\",1]}},\
         \"decoder\":null,\"model\":{{\"type\":\"WordLevel\",\"vocab\":{{\"[UNK]\":0,\
         \"[CLS]\":1,\"[SEP]\":2,\"a\":3,\"b\":4}},\"unk_token\":\"[UNK]\"}}}}",
        added(0, "[UNK]"),
        added(1, "[CLS]"),
        added(2, "[SEP]"),
    )
}

fn model() -> EmbedModel {
    EmbedModel::load_from(definition().as_bytes()).ok().unwrap()
}

fn words(n: usize) -> String {
    vec!["a"; n].join(" ")
}

/// Embeds a text as its number of bytes.
fn length(batch: &Vec<String>) -> Result<Vec<Vec<u32>>, String> {
    Ok(batch.iter().map(|t| vec![t.len() as u32]).collect())
}

fn single(text: &String) -> Result<Vec<u32>, String> {
    Ok(vec![1_000_000 + text.len() as u32])
}

/// Adds up the products of the vectors and their weights.
fn mix(w: &Vec<(Vec<u32>, usize)>) -> Vec<u32> {
    vec![w.iter().map(|(v, n)| v[0] * *n as u32).sum()]
}

// --- make_batches ---

#[test]
fn test_make_batches_single_item() {
    let items = vec![(0, "text".to_string(), 100)];
    let batches = EmbedModel::make_batches(&items);
    assert_eq!(batches.len(), 1);
    assert_eq!(batches[0].len(), 1);
}

#[test]
fn test_make_batches_respects_token_budget() {
    let items: Vec<_> = (0..3).map(|i| (i, format!("t{i}"), 6000)).collect();
    let batches = EmbedModel::make_batches(&items);
    assert_eq!(batches.len(), 2);
}

#[test]
fn test_make_batches_respects_max_size() {
    let items: Vec<_> = (0..40).map(|i| (i, format!("t{i}"), 10)).collect();
    let batches = EmbedModel::make_batches(&items);
    assert_eq!(batches.len(), 2);
    assert_eq!(batches[0].len(), 32);
    assert_eq!(batches[1].len(), 8);
}

#[test]
fn test_make_batches_sorts_by_tokens() {
    let items = vec![
        (0, "big".to_string(), 500),
        (1, "small".to_string(), 10),
        (2, "medium".to_string(), 200),
    ];
    let batches = EmbedModel::make_batches(&items);
    assert_eq!(batches.len(), 1);
    assert_eq!(batches[0], vec![1, 2, 0]);
}

#[test]
fn test_make_batches_empty() {
    let items: Vec<(usize, String, usize)> = vec![];
    let batches = EmbedModel::make_batches(&items);
    assert!(batches.is_empty());
}

#[test]
fn batches_keep_the_limits() {
    assert_eq!(pack(&vec![8192, 8192, 8192]), vec![vec![0, 1], vec![2]]);
    assert_eq!(pack(&vec![16385, 1, u64::MAX]), vec![vec![1], vec![0], vec![2]]);
    assert_eq!(pack(&vec![0; 33]).len(), 2);
    assert_eq!(pack(&vec![512; 33])[0].len(), 32);
    assert_eq!(pack(&vec![513; 33])[0].len(), 31);
}

#[test]
fn batches_hold_every_text_once() {
    let tokens: Vec<u64> = (0..300u64).map(|i| (i * 7919) % 1021).collect();
    let batches = pack(&tokens);
    let mut seen: Vec<usize> = batches.concat();
    for b in &batches {
        let most = b.iter().map(|i| tokens[*i]).max().unwrap();
        assert!(b.len() == 1 || (b.len() <= 32 && b.len() as u64 * most <= 16384));
    }
    seen.sort();
    assert_eq!(seen, (0..300).collect::<Vec<usize>>());
}

// --- tokenizers ---

#[test]
fn tokens_are_counted_without_truncation_or_padding() {
    let m = model();
    assert_eq!(m.token_count(""), 2);
    assert_eq!(m.token_count("a b a"), 5);
    assert_eq!(m.token_count("a, b!"), 6);
    assert_eq!(m.token_count(&words(1000)), 1002);
}

#[test]
fn texts_are_cut_for_inference() {
    let m = model();
    let e = m.encode_single("a b c").ok().unwrap();
    assert_eq!(e.ids, vec![1, 3, 4, 0, 2]);
    assert_eq!(e.mask, vec![1; 5]);
    assert_eq!(e.type_ids, vec![0; 5]);
    assert_eq!(m.encode_single(&words(1000)).ok().unwrap().ids.len(), CHUNK_THRESHOLD);
}

#[test]
fn a_batch_is_padded_to_its_longest_text() {
    let m = model();
    let batch = vec!["a".to_string(), "b a b".to_string()];
    let p = m.encode_batch(&batch).ok().unwrap();
    assert_eq!(p.width, 5);
    assert_eq!(p.ids, vec![1, 3, 2, 0, 0, 1, 4, 3, 4, 2]);
    assert_eq!(p.mask, vec![1, 1, 1, 0, 0, 1, 1, 1, 1, 1]);
    assert_eq!(p.type_ids, vec![0; 10]);
    assert_eq!(p.encodings.len(), 2);
    assert_eq!(p.encodings[0].ids, vec![1, 3, 2]);

    let none = m.encode_batch(&vec![]).ok().unwrap();
    assert_eq!(none.width, 0);
    assert!(none.ids.is_empty());
}

#[test]
fn rows_of_any_numbers_are_padded() {
    let row = |ids: Vec<u32>| Encoded {
        mask: vec![u32::MAX; ids.len()],
        type_ids: vec![7; ids.len()],
        ids,
    };
    let p = pad_batch(vec![row(vec![5, 6]), row(vec![]), row(vec![8])]);
    assert_eq!(p.width, 2);
    assert_eq!(p.ids, vec![5, 6, 0, 0, 8, 0]);
    assert_eq!(p.mask, vec![4294967295, 4294967295, 0, 0, 4294967295, 0]);
    assert_eq!(p.type_ids, vec![7, 7, 0, 0, 7, 0]);
}

#[test]
fn definitions_are_checked() {
    match EmbedModel::load_from(b"{") {
        Err(e) => {
            assert!(matches!(e, ModelError::Tokenizer(_)));
            assert!(e.message().starts_with("failed to load tokenizer: "));
        }
        Ok(_) => panic!("no tokenizer is defined"),
    }
    let words = definition().replace("\"unk_token\"", "\"unknown\"");
    assert!(matches!(EmbedModel::load_from(words.as_bytes()), Err(ModelError::Tokenizer(_))));
    assert!(matches!(make_tokenizer(b"{}", None), Err(TokenizerError::Definition(_))));
    let compiled = definition().replace("\"normalizer\":null", "\"normalizer\":{\"type\":\"Precompiled\"}");
    assert!(matches!(make_tokenizer(compiled.as_bytes(), None), Err(TokenizerError::Unsupported)));
    assert_eq!(
        ModelError::Unsupported.message(),
        "failed to load tokenizer: unsupported definition"
    );
    match make_tokenizer(definition().as_bytes(), Some(1)) {
        Err(TokenizerError::SpecialTokens(n)) => assert_eq!(n, 2),
        _ => panic!("two special tokens do not fit into one"),
    }
    assert!(make_tokenizer(definition().as_bytes(), Some(2)).is_ok());
    assert_eq!(
        ModelError::Truncation(513).message(),
        "failed to set truncation: 513 special tokens"
    );
    assert_eq!(ModelError::Tokenization("x".to_string()).message(), "tokenization failed: x");
}

#[test]
fn a_text_that_cannot_be_tokenized_counts_as_none() {
    let broken = definition().replace("\"unk_token\":\"[UNK]\"", "\"unk_token\":\"[NONE]\"");
    let m = EmbedModel::load_from(broken.as_bytes()).ok().unwrap();
    assert_eq!(m.token_count("a"), 3);
    assert_eq!(m.token_count("unknown"), 0);
    assert!(matches!(m.encode_single("unknown"), Err(ModelError::Tokenization(_))));
    let batch = vec!["a".to_string(), "unknown".to_string()];
    assert!(matches!(m.encode_batch(&batch), Err(ModelError::Tokenization(_))));
}

// --- chunks ---

#[test]
fn chunks_fit_into_the_room() {
    let lines: Vec<String> = ["one", "two", "three", "four", "five"].map(String::from).to_vec();
    let counts = vec![4, 5, 12, 3, 0];
    // Costs: 2, 3, 10, 1, 1.
    assert_eq!(
        split_chunks(&lines, &counts, 5),
        vec!["one\ntwo", "three", "four\nfive"]
    );
    assert_eq!(split_chunks(&lines, &counts, 4), vec!["one", "two", "three", "four\nfive"]);
    assert_eq!(split_chunks(&lines, &counts, 17), vec!["one\ntwo\nthree\nfour\nfive"]);
    assert_eq!(split_chunks(&lines, &counts, 0), Vec::<String>::new());
    assert_eq!(split_chunks(&vec![], &vec![], 5), Vec::<String>::new());
    assert_eq!(
        split_chunks(&lines[..2].to_vec(), &vec![usize::MAX, usize::MAX], 5),
        vec!["one", "two"]
    );
}

#[test]
fn chunks_make_up_the_text() {
    let lines: Vec<String> = (0..50).map(|i| "x".repeat(i % 7)).collect();
    let counts: Vec<usize> = (0..50).map(|i| (i * 5) % 13).collect();
    for room in 1..30 {
        assert_eq!(split_chunks(&lines, &counts, room).join("\n"), lines.join("\n"));
    }
}

#[test]
fn chunks_are_full() {
    let costs: Vec<usize> = (0..60).map(|i| 1 + (i * 7) % 9).collect();
    // A line is named by its number, and costs two tokens less than it has.
    let lines: Vec<String> = (0..60).map(|i| i.to_string()).collect();
    let counts: Vec<usize> = costs.iter().map(|c| c + 2).collect();
    for room in 1..40 {
        let chunks: Vec<Vec<usize>> = split_chunks(&lines, &counts, room)
            .iter()
            .map(|c| c.split('\n').map(|l| l.parse().unwrap()).collect())
            .collect();
        for pair in chunks.windows(2) {
            let total: usize = pair[0].iter().map(|i| costs[*i]).sum();
            assert!(total + costs[pair[1][0]] > room);
            assert!(pair[0].len() == 1 || total <= room);
        }
    }
}

#[test]
fn room_beside_the_prefix() {
    assert_eq!(chunk_room(512, 4), 506);
    assert_eq!(chunk_room(512, 509), 1);
    assert_eq!(chunk_room(512, 510), 0);
    assert_eq!(chunk_room(512, 600), 0);
}

#[test]
fn long_texts_are_split_at_lines() {
    let m = model();
    let text = format!("{}\n\n{}\r\nb", words(300), words(300));
    // The prefix has two words, so there is room for 506 tokens.
    let chunks = m.split_text_chunks(&text, PREFIX_DOCUMENT, CHUNK_THRESHOLD);
    assert_eq!(chunks, vec![format!("{}\n", words(300)), format!("{}\nb", words(300))]);
    assert!(m.split_text_chunks(&text, PREFIX_DOCUMENT, 6).is_empty());
}

#[test]
fn a_text_has_one_plan() {
    let (m, n) = (model(), model());
    for text in [words(3), words(600), format!("{}\n{}\n\n{}", words(300), words(300), words(900))] {
        let (first, whole) = m.plan(&text, PREFIX_DOCUMENT);
        let (second, again) = n.plan(&text, PREFIX_DOCUMENT);
        assert_eq!(whole, again);
        let flat = |pieces: Vec<Piece>| -> Vec<(String, usize)> {
            pieces.into_iter().map(|p| (p.text, p.tokens)).collect()
        };
        assert_eq!(flat(first), flat(second));
    }
}

#[test]
fn plans_depend_on_the_threshold() {
    let m = model();
    let (pieces, whole) = m.plan(&words(508), PREFIX_QUERY);
    assert!(whole);
    assert_eq!(pieces.len(), 1);
    assert_eq!(pieces[0].tokens, 512);
    assert_eq!(pieces[0].text, format!("search_query: {}", words(508)));

    let (pieces, whole) = m.plan(&format!("{}\n{}", words(500), words(9)), PREFIX_QUERY);
    assert!(!whole);
    assert_eq!(pieces.len(), 2);
    assert_eq!(pieces[0].text, format!("search_query: {}", words(500)));
    assert_eq!(pieces[0].tokens, 504);
    assert_eq!(pieces[1].text, format!("search_query: {}", words(9)));
    assert_eq!(pieces[1].tokens, 13);
}

// --- embedding ---

#[test]
fn batches_are_run_in_order_of_length() {
    let pieces: Vec<Piece> = [("long", 20000), ("s", 1), ("mid", 9000), ("x", 1)]
        .map(|(t, n)| Piece { text: t.to_string(), tokens: n })
        .into_iter()
        .collect();
    let calls: RefCell<Vec<Vec<String>>> = RefCell::new(Vec::new());
    let infer = |batch: &Vec<String>| {
        calls.borrow_mut().push(batch.clone());
        length(batch)
    };
    let embs = run_batches(&pieces, &infer).unwrap();
    assert_eq!(embs, vec![vec![4], vec![1], vec![3], vec![1]]);
    assert_eq!(calls.borrow().clone(), vec![vec!["s", "x"], vec!["mid"], vec!["long"]]);

    let fail = |batch: &Vec<String>| {
        if batch[0] == "mid" {
            Err("no".to_string())
        } else {
            length(batch)
        }
    };
    assert_eq!(run_batches(&pieces, &fail), Err("no".to_string()));

    // The error is that of the first batch that fails.
    let fail_late = |batch: &Vec<String>| {
        if batch[0] == "s" {
            length(batch)
        } else {
            Err(batch[0].clone())
        }
    };
    assert_eq!(run_batches(&pieces, &fail_late), Err("mid".to_string()));
}

#[test]
fn short_texts_are_embedded_on_their_own() {
    let m = model();
    let v = m.embed_query("a b", single, length, mix).unwrap();
    assert_eq!(v, vec![1_000_000 + PREFIX_QUERY.len() as u32 + 3]);
    let v = m.embed_document("a b", single, length, mix).unwrap();
    assert_eq!(v, vec![1_000_000 + PREFIX_DOCUMENT.len() as u32 + 3]);
    let v = m.embed_text("a b", "", single, length, mix).unwrap();
    assert_eq!(v, vec![1_000_003]);
    let failed: Result<Vec<u32>, String> =
        m.embed_text("a", "", |_: &String| Err("no".to_string()), length, mix);
    assert_eq!(failed, Err("no".to_string()));
}

#[test]
fn long_texts_are_averaged_over_their_chunks() {
    let m = model();
    let text = format!("{}\n{}", words(505), words(10));
    let v = m.embed_text(&text, "", single, length, mix).unwrap();
    // Each word but the last of a line takes two bytes; the weights are 507 and 12 tokens.
    assert_eq!(v, vec![1009 * 507 + 19 * 12]);
    let failed: Result<Vec<u32>, String> =
        m.embed_text(&text, "", single, |_: &Vec<String>| Err("no".to_string()), mix);
    assert_eq!(failed, Err("no".to_string()));
}

#[test]
fn documents_come_back_in_order() {
    let m = model();
    let long = format!("{}\n{}", words(500), words(20));
    let docs = [long.as_str(), "a", "", "b b"];
    let vs = m.embed_documents(&docs, length, mix).unwrap();
    let p = PREFIX_DOCUMENT.len() as u32;
    assert_eq!(vs.len(), 4);
    // The prefix has two words, and every text two special tokens.
    assert_eq!(vs[0], vec![(p + 999) * 504 + (p + 39) * 24]);
    assert_eq!(vs[1], vec![p + 1]);
    assert_eq!(vs[2], vec![p]);
    assert_eq!(vs[3], vec![p + 3]);
    assert_eq!(m.embed_documents(&[], length, mix), Ok(vec![]));
    let failed: Result<Vec<Vec<u32>>, String> =
        m.embed_documents(&docs, |_: &Vec<String>| Err("no".to_string()), mix);
    assert_eq!(failed, Err("no".to_string()));
}

#[test]
fn documents_together_are_as_on_their_own() {
    let m = model();
    let alone = |text: &String| Ok(vec![text.len() as u32]);
    let long = format!("{}\n{}\n{}", words(500), words(20), words(600));
    let docs = ["b", long.as_str(), "", "a a", "b"];
    let vs = m.embed_documents(&docs, length, mix).unwrap();
    assert_eq!(vs.len(), docs.len());
    for (doc, v) in docs.iter().zip(&vs) {
        assert_eq!(&m.embed_document(doc, alone, length, mix).unwrap(), v);
        assert_eq!(&m.embed_text(doc, PREFIX_DOCUMENT, alone, length, mix).unwrap(), v);
        assert_eq!(
            m.embed_query(doc, alone, length, mix),
            m.embed_text(doc, PREFIX_QUERY, alone, length, mix)
        );
    }
}

// --- definitions ---

const WORDS: &str = "{\"type\":\"WordLevel\",\"vocab\":{\"[UNK]\":0,\"[CLS]\":1,\"[SEP]\":2,\
    \"a\":3,\"b\":4},\"unk_token\":\"[UNK]\"}";

/// A definition with the given parts, each as JSON.
fn parts(added: &str, normalizer: &str, pre: &str, post: &str, decoder: &str, model: &str) -> String {
    format!(
        "{{\"version\":\"1.0\",\"added_tokens\":{},\"normalizer\":{},\"pre_tokenizer\":{},\
         \"post_processor\":{},\"decoder\":{},\"model\":{}}}",
        added, normalizer, pre, post, decoder, model
    )
}

fn ids_of(definition: &str, text: &str) -> Vec<u32> {
    let m = EmbedModel::load_from(definition.as_bytes()).ok().unwrap();
    m.encode_single(text).ok().unwrap().ids
}

fn refused(definition: &str) -> bool {
    matches!(EmbedModel::load_from(definition.as_bytes()), Err(ModelError::Unsupported))
}

fn with_model(model: &str) -> String {
    parts("[]", "null", "{\"type\":\"Whitespace\"}", "null", "null", model)
}

fn with_post(post: &str) -> String {
    parts("[]", "null", "{\"type\":\"Whitespace\"}", post, "null", WORDS)
}

fn template(single: &str, special: &str) -> String {
    format!(
        "{{\"type\":\"TemplateProcessing\",\"single\":{},\"pair\":[],\"special_tokens\":{}}}",
        single, special
    )
}

const TEXT_A: &str = "{\"Sequence\":{\"id\":\"A\",\"type_id\":0}}";
const TEXT_B: &str = "{\"Sequence\":{\"id\":\"B\",\"type_id\":1}}";
const CLS: &str = "{\"SpecialToken\":{\"id\":\"[CLS]\",\"type_id\":0}}";
const SEP: &str = "{\"SpecialToken\":{\"id\":\"[SEP]\",\"type_id\":0}}";
const SPECIAL: &str = "{\"[CLS]\":{\"id\":\"[CLS]\",\"ids\":[1],\"tokens\":[\"[CLS]\"]},\
    \"[SEP]\":{\"id\":\"[SEP]\",\"ids\":[2],\"tokens\":[\"[SEP]\"]}}";

const BERT: &str = "{\"type\":\"BertNormalizer\",\"clean_text\":true,\
    \"handle_chinese_chars\":true,\"strip_accents\":null,\"lowercase\":true}";

#[test]
fn a_definition_like_that_of_the_model() {
    let added = "[{\"id\":0,\"content\":\"[UNK]\",\"single_word\":false,\"lstrip\":false,\
        \"rstrip\":false,\"normalized\":false,\"special\":true}]";
    let model = "{\"type\":\"WordPiece\",\"unk_token\":\"[UNK]\",\
        \"continuing_subword_prefix\":\"##\",\"max_input_chars_per_word\":100,\
        \"vocab\":{\"[UNK]\":0,\"[CLS]\":1,\"[SEP]\":2,\"wor\":3,\"##ld\":4,\",\":5}}";
    let post = template(&format!("[{},{},{}]", CLS, TEXT_A, SEP), SPECIAL);
    let decoder = "{\"type\":\"WordPiece\",\"prefix\":\"##\",\"cleanup\":true}";
    let pre = "{\"type\":\"BertPreTokenizer\"}";
    let definition = parts(added, BERT, pre, &post, decoder, model);
    assert_eq!(ids_of(&definition, "W\u{d6}rld, world x"), vec![1, 3, 4, 5, 3, 4, 0, 2]);
    assert_eq!(ids_of(&definition, ""), vec![1, 2]);
    assert_eq!(ids_of(&definition, "\u{0}\u{301}"), vec![1, 2]);
    let m = EmbedModel::load_from(definition.as_bytes()).ok().unwrap();
    assert_eq!(m.encode_single(&"world ".repeat(600)).ok().unwrap().ids.len(), CHUNK_THRESHOLD);
    assert_eq!(m.token_count(&"world ".repeat(600)), 1202);
}

#[test]
fn a_definition_by_byte_pairs() {
    for merges in ["[[\"a\",\"b\"]]", "[\"a b\"]"] {
        let model = format!(
            "{{\"type\":\"BPE\",\"vocab\":{{\"a\":0,\"b\":1,\"ab\":2}},\"merges\":{}}}",
            merges
        );
        assert_eq!(ids_of(&with_model(&model), "ab b aab"), vec![2, 1, 0, 2]);
    }
    let bpe = |vocab: &str, merges: &str, more: &str| {
        with_model(&format!(
            "{{\"type\":\"BPE\",\"vocab\":{},\"merges\":{}{}}}",
            vocab, merges, more
        ))
    };
    // The outcome of the merge is longer than every token.
    assert!(refused(&bpe("{\"a\":0,\"b\":1}", "[[\"a\",\"b\"]]", "")));
    assert!(refused(&bpe("{\"a\":0,\"b\":1}", "[\"a bb\"]", "")));
    assert!(refused(&bpe("{\"a\":0}", "[[\"a\"]]", "")));
    // Within the vocabulary's lengths it is the tokenizer that finds the fault.
    let other = bpe("{\"a\":0,\"b\":1,\"cc\":2}", "[[\"a\",\"b\"]]", "");
    assert!(matches!(EmbedModel::load_from(other.as_bytes()), Err(ModelError::Tokenizer(_))));
    let prefix = ",\"continuing_subword_prefix\":";
    let vocab = "{\"a\":0,\"b\":1,\"ab\":2}";
    assert!(refused(&bpe(vocab, "[[\"a\",\"b\"]]", &format!("{}\"##\"", prefix))));
    let none = bpe(vocab, "[[\"a\",\"b\"]]", &format!("{}\"\"", prefix));
    assert_eq!(ids_of(&none, "ab"), vec![2]);
    let within = "{\"a\":0,\"##b\":1,\"ab\":2}";
    for merges in ["[[\"a\",\"##b\"]]", "[\"a ##b\"]", "[\"#version: 0.2\",\"a ##b\"]"] {
        let marked = bpe(within, merges, &format!("{}\"##\"", prefix));
        assert_eq!(ids_of(&marked, "ab a"), vec![2, 0]);
    }
    // A model that does not say what it is.
    let untyped = with_model("{\"vocab\":{\"a\":0,\"b\":1,\"ab\":2},\"merges\":[\"a b\"]}");
    assert_eq!(ids_of(&untyped, "ab b"), vec![2, 1]);
    assert!(refused(&with_model("{\"vocab\":{\"a\":0,\"b\":1},\"merges\":[\"a b\"]}")));
}

#[test]
fn a_definition_by_scores() {
    let unigram = |vocab: &str| {
        with_model(&format!("{{\"type\":\"Unigram\",\"unk_id\":0,\"vocab\":{}}}", vocab))
    };
    let pieces = "[[\"<unk>\",0.0],[\"a\",-1.0],[\"b\",-1.0],[\"ab\",-1.5]]";
    assert_eq!(ids_of(&unigram(pieces), "ab ba x\u{e9}"), vec![3, 2, 1, 0]);
    let long = |n: usize| unigram(&format!("[[\"<unk>\",0.0],[\"{}\",-1.0]]", "a".repeat(n)));
    assert_eq!(ids_of(&long(1024), &"a".repeat(1024)), vec![1]);
    assert!(refused(&long(1025)));
    assert!(matches!(
        EmbedModel::load_from(unigram("[]").as_bytes()),
        Err(ModelError::Tokenizer(_))
    ));
}

#[test]
fn templates_for_one_text() {
    let good = template(&format!("[{},{}]", TEXT_A, SEP), SPECIAL);
    assert_eq!(ids_of(&with_post(&good), "a b"), vec![3, 4, 2]);
    assert!(ids_of(&with_post(&template("[]", "{}")), "a b").is_empty());
    // A second text, a token that is not listed, the text twice.
    assert!(refused(&with_post(&template(&format!("[{},{}]", TEXT_A, TEXT_B), SPECIAL))));
    assert!(refused(&with_post(&template(&format!("[{},{}]", TEXT_A, SEP), "{}"))));
    assert!(refused(&with_post(&template(&format!("[{},{}]", TEXT_A, TEXT_A), SPECIAL))));
    // What the template is called makes no difference.
    let bad = template(&format!("[{}]", TEXT_B), SPECIAL).replace("TemplateProcessing", "x");
    assert!(refused(&with_post(&bad)));
    assert!(refused(&with_post("[]")));
    // Several in sequence: at most one template, and no sequence within it.
    let bytes = "{\"type\":\"ByteLevel\",\"add_prefix_space\":true,\"trim_offsets\":true}";
    let several = |items: &str| {
        with_post(&format!("{{\"type\":\"Sequence\",\"processors\":[{}]}}", items))
    };
    assert_eq!(ids_of(&several(""), "a b"), vec![3, 4]);
    assert_eq!(ids_of(&several(&format!("{},{}", bytes, good)), "a b"), vec![3, 4, 2]);
    assert!(refused(&several(&format!("{},{}", good, good))));
    assert!(refused(&several("{\"type\":\"Sequence\",\"processors\":[]}")));
    assert!(refused(&several(&bad)));
}

fn with_token(flags: &str, normalizer: &str) -> String {
    let added = format!(
        "[{{\"id\":3,\"content\":\"a\",\"single_word\":false,{},\"special\":false}}]",
        flags
    );
    parts(&added, normalizer, "{\"type\":\"Whitespace\"}", "null", "null", WORDS)
}

const LOWER: &str = "{\"type\":\"Lowercase\"}";

#[test]
fn parts_that_are_refused() {
    assert!(refused(&with_model("{\"type\":\"BPE\",\"vocab\":{},\"merges\":[1]}")));
    let white = "{\"type\":\"Whitespace\"}";
    let normalized = |normalizer: &str| parts("[]", normalizer, white, "null", "null", WORDS);
    assert!(refused(&normalized("{\"type\":\"Precompiled\"}")));
    assert!(refused(&normalized("{\"type\":\"BertNormalizer\"}")));
    assert!(refused(&normalized(
        "{\"type\":\"Replace\",\"pattern\":{\"String\":\"a\"},\"content\":\"b\"}"
    )));
    assert!(refused(&normalized("{\"type\":\"Prepend\",\"prepend\":\"\"}")));
    assert!(refused(&normalized("{\"type\":\"Sequence\",\"normalizers\":[{}]}")));
    assert!(refused(&normalized("{\"type\":\"Sequence\"}")));
    let cut = |pre: &str| parts("[]", "null", pre, "null", "null", WORDS);
    assert!(refused(&cut("{\"type\":\"FixedLength\",\"length\":0}")));
    assert!(refused(&cut(
        "{\"type\":\"Split\",\"pattern\":{\"Regex\":\"a\"},\"behavior\":\"Isolated\",\
         \"invert\":false}"
    )));
    let bytes = "{\"type\":\"ByteLevel\",\"add_prefix_space\":true,\"trim_offsets\":true}";
    assert!(refused(&parts("[]", LOWER, bytes, "null", "null", WORDS)));
    assert!(refused(&cut(&format!(
        "{{\"type\":\"Sequence\",\"pretokenizers\":[{},{}]}}",
        bytes, bytes
    ))));
    assert!(refused(&parts(
        "[]",
        LOWER,
        &format!("{{\"type\":\"Sequence\",\"pretokenizers\":[{}]}}", bytes),
        "null",
        "null",
        WORDS
    )));
    assert!(refused(&parts("[1]", "null", white, "null", "null", WORDS)));
    let swallowing = "\"lstrip\":true,\"rstrip\":true,\"normalized\":false";
    assert!(refused(&with_token(swallowing, "null")));
    let matched = "\"lstrip\":false,\"rstrip\":false,\"normalized\":true";
    assert!(refused(&with_token(matched, BERT)));
    let searching = "{\"type\":\"Replace\",\"pattern\":{\"Regex\":\"a\"},\"content\":\"b\"}";
    assert!(refused(&parts("[]", "null", white, "null", searching, WORDS)));
}

#[test]
fn parts_that_are_admitted() {
    let white = "{\"type\":\"Whitespace\"}";
    let normalized = |normalizer: &str| parts("[]", normalizer, white, "null", "null", WORDS);
    assert_eq!(ids_of(&normalized(LOWER), "A b"), vec![3, 4]);
    for form in ["NFC", "NFD", "NFKC", "NFKD"] {
        let n = format!("{{\"type\":\"{}\"}}", form);
        assert_eq!(ids_of(&normalized(&n), "a \u{212b} b"), vec![3, 0, 4]);
    }
    let accents = "{\"type\":\"Sequence\",\"normalizers\":[{\"type\":\"NFD\"},\
        {\"type\":\"StripAccents\"},{\"type\":\"Lowercase\"}]}";
    assert_eq!(ids_of(&normalized(accents), "\u{c1} b"), vec![3, 4]);
    let first = normalized("{\"type\":\"Prepend\",\"prepend\":\"b \"}");
    assert_eq!(ids_of(&first, "a"), vec![4, 3]);
    let plain = "\"lstrip\":false,\"rstrip\":false,\"normalized\":true";
    assert_eq!(ids_of(&with_token(plain, "null"), "a b"), vec![3, 4]);
    assert_eq!(ids_of(&with_token(plain, LOWER), "A b"), vec![3, 4]);
    let behind = "\"lstrip\":false,\"rstrip\":true,\"normalized\":false";
    assert_eq!(ids_of(&with_token(behind, "null"), "a  b"), vec![3, 4]);
    let before = "\"lstrip\":true,\"rstrip\":false,\"normalized\":false";
    assert_eq!(ids_of(&with_token(before, "null"), "b  a"), vec![4, 3]);
    let bytes = "{\"type\":\"ByteLevel\",\"add_prefix_space\":false,\"trim_offsets\":true,\
        \"use_regex\":false}";
    let cut = |pre: &str| parts("[]", "null", pre, "null", "null", WORDS);
    assert_eq!(ids_of(&cut(bytes), "a"), vec![3]);
    let several = format!(
        "{{\"type\":\"Sequence\",\"pretokenizers\":[{{\"type\":\"Punctuation\",\
         \"behavior\":\"Isolated\"}},{{\"type\":\"WhitespaceSplit\"}},{}]}}",
        bytes
    );
    assert_eq!(ids_of(&cut(&several), "a,b a"), vec![3, 0, 4, 3]);
    assert_eq!(ids_of(&cut("{\"type\":\"FixedLength\",\"length\":1}"), "ab"), vec![3, 4]);
    assert_eq!(
        ids_of(&cut("{\"type\":\"CharDelimiterSplit\",\"delimiter\":\"-\"}"), "a-b"),
        vec![3, 4]
    );
    let meta = "{\"type\":\"Metaspace\",\"replacement\":\"\u{2581}\",\
        \"prepend_scheme\":\"never\",\"split\":true}";
    assert_eq!(ids_of(&cut(meta), "a b"), vec![3, 0]);
    let decoders = "{\"type\":\"Sequence\",\"decoders\":[{\"type\":\"Fuse\"},\
        {\"type\":\"Replace\",\"pattern\":{\"String\":\"a\"},\"content\":\"b\"}]}";
    assert_eq!(ids_of(&parts("[]", "null", white, "null", decoders, WORDS), "a b"), vec![3, 4]);
}

#[test]
fn a_definition_by_bytes() {
    let bytes = "{\"type\":\"ByteLevel\",\"add_prefix_space\":false,\"trim_offsets\":true}";
    let model = "{\"type\":\"BPE\",\"vocab\":{\"a\":0,\"b\":1,\"\u{120}\":2,\"\u{120}b\":3,\"'\":4,\
        \"s\":5,\"'s\":6,\"\u{c3}\":7,\"\u{a9}\":8,\"\u{c3}\u{a9}\":9},\"merges\":[\"\u{120} b\",\"' s\",\
        \"\u{c3} \u{a9}\"]}";
    let definition = parts("[]", "null", bytes, bytes, bytes, model);
    assert!(is_searching(definition.as_bytes()));
    assert!(!is_searching(b"{"));
    assert_eq!(ids_of(&definition, "a b's \u{e9}"), vec![0, 3, 6, 2, 9]);
    assert_eq!(ids_of(&definition, "a   b"), vec![0, 2, 2, 3]);
    assert!(ids_of(&definition, "").is_empty());
    let spaced = definition.replacen("\"add_prefix_space\":false", "\"add_prefix_space\":true", 1);
    assert_eq!(ids_of(&spaced, "b"), vec![3]);
    let digits = "{\"type\":\"Digits\",\"individual_digits\":true}";
    let several = format!("{{\"type\":\"Sequence\",\"pretokenizers\":[{},{}]}}", digits, bytes);
    let cut = parts("[]", "null", &several, "null", "null", model);
    assert!(is_searching(cut.as_bytes()));
    assert_eq!(ids_of(&cut, "a b's"), vec![0, 3, 6]);
    let plain = definition.replacen("true}", "true,\"use_regex\":false}", 1);
    assert!(!is_searching(plain.as_bytes()));
    assert_eq!(ids_of(&plain, "b's"), vec![1, 6]);
}

#[test]
fn a_member_that_stands_twice_is_refused() {
    let twice = definition().replace("\"normalizer\":null", "\"normalizer\":null,\"normalizer\":null");
    assert!(refused(&twice));
    let inner = definition().replace("\"unk_token\":\"[UNK]\"", "\"unk_token\":\"x\",\"unk_token\":\"[UNK]\"");
    assert!(refused(&inner));
    // The second name is written with an escape.
    let escaped = with_model(&WORDS.replace("\"a\":3", "\"a\":3,\"\\u0061\":3"));
    assert!(refused(&escaped));
    // Colons and quotation marks within texts do not count.
    let marks = with_model(&WORDS.replace("\"a\":3", "\":\":3,\"\\\"\":5,\"\\\\\":6"));
    assert_eq!(ids_of(&marks, ": \\ \" b"), vec![3, 6, 5, 4]);
}

#[test]
fn definitions_that_leave_something_to_chance() {
    assert!(is_certain(definition().as_bytes()));
    assert!(!is_certain(b"{"));
    let bpe = |dropout: &str| {
        with_model(&format!(
            "{{\"type\":\"BPE\",\"dropout\":{},\"vocab\":{{\"a\":0}},\"merges\":[]}}",
            dropout
        ))
    };
    assert!(is_certain(bpe("null").as_bytes()));
    assert!(!is_certain(bpe("0.5").as_bytes()));
    assert_eq!(ids_of(&bpe("0.5"), "a a"), vec![0, 0]);
    let matched = "\"lstrip\":false,\"rstrip\":false,\"normalized\":true";
    assert!(is_certain(with_token(matched, "null").as_bytes()));
    assert!(!is_certain(with_token(matched, LOWER).as_bytes()));
}

/// Texts with characters that take part in composition, that get longer or shorter when they
/// are normalized, or that have no place in ordinary text.
fn odd_texts() -> Vec<String> {
    let chars = [
        'a', 'B', ' ', '\n', '\t', '-', ',', '7', '\u{0}', '\u{1f}', '\u{a0}', '\u{ad}', '\u{df}',
        '\u{e9}', '\u{130}', '\u{149}', '\u{301}', '\u{323}', '\u{345}', '\u{3b1}', '\u{390}',
        '\u{4e00}', '\u{1100}', '\u{1161}', '\u{11a8}', '\u{ac00}', '\u{1e9e}', '\u{1f80}',
        '\u{200b}', '\u{200d}', '\u{2028}', '\u{2581}', '\u{3000}', '\u{304c}', '\u{30fc}',
        '\u{fb01}', '\u{fdfa}', '\u{feff}', '\u{fffd}', '\u{1d15e}', '\u{1f468}', '\u{2fa1d}',
    ];
    let mut texts: Vec<String> = vec![String::new()];
    texts.extend(chars.iter().map(|c| c.to_string()));
    let mut state: u64 = 1;
    for n in 0..400usize {
        let mut text = String::new();
        for _ in 0..(n % 12) {
            state = state.wrapping_mul(6364136223846793005).wrapping_add(1442695040888963407);
            text.push(chars[(state >> 33) as usize % chars.len()]);
        }
        texts.push(text);
    }
    texts
}

#[test]
fn odd_texts_are_encoded() {
    let simple = |name: &str| format!("{{\"type\":\"{}\"}}", name);
    let mut normalizers: Vec<String> = ["Lowercase", "StripAccents", "NFC", "NFD", "NFKC", "NFKD",
        "Nmt", "ByteLevel"].iter().map(|n| simple(n)).collect();
    normalizers.push("{\"type\":\"Strip\",\"strip_left\":true,\"strip_right\":true}".to_string());
    normalizers.push("{\"type\":\"Prepend\",\"prepend\":\"\u{2581}\"}".to_string());
    normalizers.push(BERT.to_string());
    let all = format!("{{\"type\":\"Sequence\",\"normalizers\":[{}]}}", normalizers.join(","));
    normalizers.push(all);
    let bytes = "{\"type\":\"ByteLevel\",\"add_prefix_space\":true,\"trim_offsets\":true,\
        \"use_regex\":false}";
    let mut cuts: Vec<String> = ["BertPreTokenizer", "Whitespace", "WhitespaceSplit",
        "UnicodeScripts"].iter().map(|n| simple(n)).collect();
    cuts.push("{\"type\":\"Metaspace\",\"replacement\":\"\u{2581}\",\
        \"prepend_scheme\":\"always\",\"split\":true}".to_string());
    for behavior in ["Removed", "Isolated", "MergedWithPrevious", "MergedWithNext", "Contiguous"] {
        cuts.push(format!("{{\"type\":\"Punctuation\",\"behavior\":\"{}\"}}", behavior));
    }
    cuts.push("{\"type\":\"Digits\",\"individual_digits\":true}".to_string());
    cuts.push("{\"type\":\"CharDelimiterSplit\",\"delimiter\":\"a\"}".to_string());
    cuts.push("{\"type\":\"FixedLength\",\"length\":2}".to_string());
    cuts.push(bytes.to_string());
    let some = format!(
        "{{\"type\":\"Sequence\",\"pretokenizers\":[{},{},{}]}}",
        cuts[4], cuts[10], bytes
    );
    cuts.push(some);
    let unigram = "{\"type\":\"Unigram\",\"unk_id\":0,\"byte_fallback\":true,\
        \"vocab\":[[\"<unk>\",0.0],[\"a\",-1.0],[\"e\",-1.0],[\"\u{e9}\",-2.0],[\"\u{301}\",-3.0]]}";
    let bpe = "{\"type\":\"BPE\",\"unk_token\":\"<unk>\",\"fuse_unk\":true,\"byte_fallback\":true,\
        \"end_of_word_suffix\":\"$\",\"vocab\":{\"<unk>\":0,\"a\":1,\"b\":2,\"ab\":3},\
        \"merges\":[[\"a\",\"b\"]]}";
    let token = |content: &str, flags: &str| {
        format!(
            "{{\"id\":3,\"content\":\"{}\",\"single_word\":true,{},\"special\":false}}",
            content, flags
        )
    };
    let added = format!(
        "[{},{}]",
        token("a", "\"lstrip\":false,\"rstrip\":true,\"normalized\":false"),
        token(" ", "\"lstrip\":false,\"rstrip\":false,\"normalized\":false"),
    );
    let post = template(&format!("[{},{},{}]", CLS, TEXT_A, SEP), SPECIAL);
    let texts = odd_texts();
    let encode_all = |definition: &str| {
        let m = EmbedModel::load_from(definition.as_bytes()).ok().unwrap();
        for text in &texts {
            let e = m.encode_single(text).ok().unwrap();
            assert_eq!(e.ids.len(), e.mask.len());
        }
    };
    for normalizer in &normalizers {
        encode_all(&parts(&added, normalizer, "null", &post, "null", unigram));
        encode_all(&parts("[]", normalizer, &cuts[13], bytes, "null", bpe));
    }
    let by_bytes = bytes.replace(",\"use_regex\":false", "");
    encode_all(&parts(&added, "null", &by_bytes, bytes, "null", bpe));
    for pre in &cuts {
        encode_all(&parts(&added, "null", pre, &post, "null", bpe));
        encode_all(&parts("[]", &normalizers[11], pre, &post, "null", unigram));
    }
}

// --- model files ---

#[test]
fn the_files_of_the_model() {
    assert_eq!(MODEL_DIMS, 768);
    let files = model_files();
    assert_eq!(files.len(), 4);
    assert_eq!(files[0], ("model.onnx", "onnx/model.onnx"));
    assert_eq!(files[1], ("tokenizer.json", "tokenizer.json"));
    assert_eq!(
        download_url(files[0].1),
        "https://huggingface.co/nomic-ai/nomic-embed-text-v1.5/resolve/main/onnx/model.onnx"
    );
    assert!(model_ready(&vec![true; 4]));
    assert!(!model_ready(&vec![true, true, true, false]));

    assert!(files_to_download(&vec![true; 4]).is_empty());
    // Each file that is missing is fetched, though the first two are what a session needs.
    assert_eq!(files_to_download(&vec![true, true, false, false]), vec![files[2], files[3]]);
    assert_eq!(files_to_download(&vec![false; 4]), files);
    assert_eq!(files_to_download(&vec![true, false, true, false]), vec![files[1], files[3]]);
}
