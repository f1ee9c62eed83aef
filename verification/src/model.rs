//! The embedding model: what is tokenized, chunked and batched for it, and how the answers
//! are put together.
//!
//! Inference and the averaging of vectors are functions that the caller hands in. Vector
//! components are held as the bit patterns of IEEE 754 singles.

use crate::batches::{
    batch_places, batched, law_batches_partition, law_batches_within_limits, lemma_batch_limits,
    lemma_batch_of, lemma_batch_order, lemma_batch_places_differ, pack,
};
use crate::chunks::{
    chunk_room, chunk_texts, cost_between, law_chunks_are_runs_of_lines,
    law_chunks_make_up_the_text, numbers, room_for, split_chunks,
};
use crate::definition::{
    certain_definition, is_searching, json_text, members_once, searching_definition,
    sound_definition, sound_parts,
};
use crate::index::{copy_vector, empty_index, law_empty_index, EmbedIndex};
use crate::lists::{flat_place, flattened, lemma_flat_source, lemma_flattened};
use crate::order::places;
use crate::text::{concat, decimal, join, lines, push_decimal, split_lines, texts};
use crate::tokens::{
    added_tokens, answers, answers_uniquely, defines_tokenizer, encode_text, encodes, encodings,
    filled_up, id_rows, is_width, lemma_filled_up, make_tokenizer, manageable, mask_rows,
    pad_batch, padded, tokenizer_model, type_rows, widest, Encoded, PaddedBatch, Padding,
    TokenRows, TokenizerError, TokenizerModel, Truncation,
};
use tokenizers::Tokenizer;
use vstd::prelude::*;
use vstd::utf8::encode_utf8;

verus! {

pub const MODEL_ID: &'static str = "nomic-ai/nomic-embed-text-v1.5";

pub const MODEL_NAME: &'static str = "nomic-embed-text-v1.5";

pub const MODEL_DIMS: usize = 768;

pub const MAX_SEQ_LENGTH: usize = 8192;

/// Texts of more tokens than this are embedded in chunks.
pub const CHUNK_THRESHOLD: usize = 512;

pub const PREFIX_DOCUMENT: &'static str = "search_document: ";

pub const PREFIX_QUERY: &'static str = "search_query: ";

// ---------------------------------------------------------------------------
// Model files
// ---------------------------------------------------------------------------

/// The local name of each model file, and its path in the model repository.
pub open spec fn model_file_list() -> Seq<(Seq<char>, Seq<char>)> {
    seq![
        ("model.onnx"@, "onnx/model.onnx"@),
        ("tokenizer.json"@, "tokenizer.json"@),
        ("special_tokens_map.json"@, "special_tokens_map.json"@),
        ("tokenizer_config.json"@, "tokenizer_config.json"@),
    ]
}

/// Model files to download: the local name of each, and its path in the model repository.
pub fn model_files() -> (r: Vec<(&'static str, &'static str)>)
    ensures
        r@.len() == model_file_list().len(),
        forall|i: int| 0 <= i < r@.len() ==> (#[trigger] r@[i]).0@ == model_file_list()[i].0
            && r@[i].1@ == model_file_list()[i].1,
{
    let mut r: Vec<(&'static str, &'static str)> = Vec::new();
    r.push(("model.onnx", "onnx/model.onnx"));
    r.push(("tokenizer.json", "tokenizer.json"));
    r.push(("special_tokens_map.json", "special_tokens_map.json"));
    r.push(("tokenizer_config.json", "tokenizer_config.json"));
    r
}

/// Where a model file is downloaded from.
pub fn download_url(repo_path: &str) -> (r: String)
    ensures
        r@ == "https://huggingface.co/"@ + MODEL_ID@ + "/resolve/main/"@ + repo_path@,
{
    let mut r: String = concat("https://huggingface.co/", MODEL_ID);
    r.push_str("/resolve/main/");
    r.push_str(repo_path);
    r
}

/// The model files that are not there, in order.
pub open spec fn absent_files(present: Seq<bool>) -> Seq<(Seq<char>, Seq<char>)>
    decreases present.len(),
{
    if present.len() == 0 {
        seq![]
    } else if present.last() {
        absent_files(present.drop_last())
    } else {
        absent_files(present.drop_last()).push(model_file_list()[present.len() - 1])
    }
}

/// The contents of a list of model files.
pub open spec fn file_names(v: Seq<(&str, &str)>) -> Seq<(Seq<char>, Seq<char>)> {
    Seq::new(v.len(), |i: int| (v[i].0@, v[i].1@))
}

/// Are all of the model files there?
pub fn model_ready(present: &Vec<bool>) -> (r: bool)
    ensures
        r == forall|i: int| 0 <= i < present@.len() ==> #[trigger] present@[i],
{
    let mut i: usize = 0;
    while i < present.len()
        invariant
            i <= present@.len(),
            forall|k: int| 0 <= k < i ==> #[trigger] present@[k],
        decreases present@.len() - i,
    {
        if !present[i] {
            return false;
        }
        i = i + 1;
    }
    true
}

/// The model files that are still to be downloaded, given which of the model files are
/// there: the local name of each, and its path in the model repository.
pub fn files_to_download(present: &Vec<bool>) -> (r: Vec<(&'static str, &'static str)>)
    requires
        present@.len() == model_file_list().len(),
    ensures
        file_names(r@) == absent_files(present@),
{
    let mut r: Vec<(&'static str, &'static str)> = Vec::new();
    let files: Vec<(&'static str, &'static str)> = model_files();
    let mut i: usize = 0;
    while i < present.len()
        invariant
            i <= present@.len() == files@.len() == model_file_list().len(),
            forall|k: int| 0 <= k < files@.len() ==> (#[trigger] files@[k]).0@
                == model_file_list()[k].0 && files@[k].1@ == model_file_list()[k].1,
            file_names(r@) == absent_files(present@.take(i as int)),
        decreases present@.len() - i,
    {
        let ghost before = r@;
        assert(present@.take(i + 1).drop_last() =~= present@.take(i as int));
        if !present[i] {
            r.push(files[i]);
            assert(file_names(r@) =~= file_names(before).push(model_file_list()[i as int]));
        }
        i = i + 1;
    }
    assert(present@.take(i as int) =~= present@);
    r
}

/// Nothing is to be downloaded just where all of the model files are there.
pub proof fn law_ready_needs_no_download(present: Seq<bool>)
    ensures
        absent_files(present).len() == 0 <==> forall|i: int|
            0 <= i < present.len() ==> #[trigger] present[i],
    decreases present.len(),
{
    if present.len() > 0 {
        let front = present.drop_last();
        law_ready_needs_no_download(front);
        assert(forall|i: int| 0 <= i < front.len() ==> front[i] == #[trigger] present[i]);
        assert(present.last() == present[present.len() - 1]);
        if forall|i: int| 0 <= i < present.len() ==> #[trigger] present[i] {
            assert forall|i: int| 0 <= i < front.len() implies #[trigger] front[i] by {
                assert(present[i]);
            }
        }
        if absent_files(present).len() == 0 {
            assert forall|i: int| 0 <= i < present.len() implies #[trigger] present[i] by {
                if i < front.len() {
                    assert(front[i]);
                }
            }
        }
    }
}

// ---------------------------------------------------------------------------
// Errors
// ---------------------------------------------------------------------------

/// Why the model does not answer.
#[derive(Debug)]
pub enum ModelError {
    /// The tokenizer definition cannot be parsed.
    Tokenizer(String),
    /// The tokenizer definition has parts that are not admitted.
    Unsupported,
    /// Texts cannot be cut at the chunk threshold.
    Truncation(usize),
    /// A text cannot be tokenized.
    Tokenization(String),
}

impl ModelError {
    /// The error as a sentence.
    pub fn message(&self) -> (r: String)
        ensures
            r@ == (match self {
                ModelError::Tokenizer(e) => "failed to load tokenizer: "@ + e@,
                ModelError::Unsupported => "failed to load tokenizer: unsupported definition"@,
                ModelError::Truncation(n) => "failed to set truncation: "@ + decimal(
                    *n as nat,
                ) + " special tokens"@,
                ModelError::Tokenization(e) => "tokenization failed: "@ + e@,
            }),
    {
        match self {
            ModelError::Tokenizer(e) => concat("failed to load tokenizer: ", e.as_str()),
            ModelError::Unsupported => {
                "failed to load tokenizer: unsupported definition".to_string()
            },
            ModelError::Truncation(n) => {
                let mut r: String = "failed to set truncation: ".to_string();
                push_decimal(&mut r, *n as u64);
                r.push_str(" special tokens");
                r
            },
            ModelError::Tokenization(e) => concat("tokenization failed: ", e.as_str()),
        }
    }
}

// ---------------------------------------------------------------------------
// Tokenizers
// ---------------------------------------------------------------------------

/// The tokenizers of the embedding model.
pub struct EmbedModel {
    /// Tokenizer with truncation at [`CHUNK_THRESHOLD`] for inference.
    tokenizer: Tokenizer,
    /// Tokenizer without truncation for measuring true token counts.
    counting_tokenizer: Tokenizer,
    /// Are texts searched by regular expression?
    searched: bool,
}

/// The tokenizer for inference.
pub open spec fn inference_tokenizer(definition: Seq<u8>) -> TokenizerModel {
    TokenizerModel {
        definition: definition,
        truncation: Truncation::At(CHUNK_THRESHOLD as nat),
        padding: Padding::Off,
    }
}

/// The tokenizer for counting.
pub open spec fn counting_tokenizer(definition: Seq<u8>) -> TokenizerModel {
    TokenizerModel { definition: definition, truncation: Truncation::Off, padding: Padding::Off }
}

/// Can `n` be the number of tokens of a text? A text that cannot be tokenized counts as
/// none.
pub open spec fn may_count(definition: Seq<u8>, text: Seq<char>, n: int) -> bool {
    exists|answer: Option<TokenRows>| #[trigger]
        answers(counting_tokenizer(definition), text).contains(answer) && n == (match answer {
            Some(rows) => rows.ids.len() as int,
            None => 0,
        })
}

/// Can `counts` be the numbers of tokens of the texts?
pub open spec fn may_count_all(definition: Seq<u8>, ts: Seq<Seq<char>>, counts: Seq<int>) -> bool {
    counts.len() == ts.len() && forall|i: int|
        0 <= i < ts.len() ==> may_count(definition, #[trigger] ts[i], counts[i])
}

/// Can the text be split into these chunks, each of which fits into the budget behind the
/// prefix unless it is a single line?
pub open spec fn may_split(
    definition: Seq<u8>,
    text: Seq<char>,
    prefix: Seq<char>,
    budget: int,
    chunks: Seq<Seq<char>>,
) -> bool {
    exists|prefix_tokens: int, counts: Seq<int>|
        may_count(definition, prefix, prefix_tokens) && #[trigger] may_count_all(
            definition,
            lines(text),
            counts,
        ) && chunks == chunk_texts(lines(text), counts, #[trigger] room_for(budget, prefix_tokens))
}

impl EmbedModel {
    /// The definition that the tokenizers are made from.
    pub closed spec fn definition(&self) -> Seq<u8> {
        tokenizer_model(self.tokenizer).definition
    }

    #[verifier::type_invariant]
    spec fn well_formed(&self) -> bool {
        let definition = tokenizer_model(self.tokenizer).definition;
        &&& tokenizer_model(self.tokenizer) == inference_tokenizer(definition)
        &&& tokenizer_model(self.counting_tokenizer) == counting_tokenizer(definition)
        &&& self.searched == searching_definition(definition)
        &&& sound_definition(definition)
        &&& added_tokens(definition) <= CHUNK_THRESHOLD
    }

    /// Load the tokenizers from the contents of a tokenizer definition file.
    pub fn load_from(definition: &[u8]) -> (r: Result<Self, ModelError>)
        ensures
            if json_text(definition@) is None {
                r matches Err(ModelError::Tokenizer(_))
            } else if !sound_definition(definition@) {
                r matches Err(ModelError::Unsupported)
            } else if !defines_tokenizer(definition@) {
                r matches Err(ModelError::Tokenizer(_))
            } else if added_tokens(definition@) > CHUNK_THRESHOLD {
                r matches Err(ModelError::Truncation(n)) && n == added_tokens(definition@)
            } else {
                r matches Ok(m) && m.definition() == definition@ && (certain_definition(
                    definition@,
                ) ==> counts_uniquely(definition@))
            },
    {
        let tokenizer: Tokenizer = match make_tokenizer(definition, Some(CHUNK_THRESHOLD)) {
            Ok(t) => t,
            Err(TokenizerError::Definition(e)) => return Err(ModelError::Tokenizer(e)),
            Err(TokenizerError::Unsupported) => return Err(ModelError::Unsupported),
            Err(TokenizerError::SpecialTokens(n)) => return Err(ModelError::Truncation(n)),
        };
        let counting: Tokenizer = match make_tokenizer(definition, None) {
            Ok(t) => t,
            Err(TokenizerError::Definition(e)) => return Err(ModelError::Tokenizer(e)),
            Err(TokenizerError::Unsupported) => return Err(ModelError::Unsupported),
            Err(TokenizerError::SpecialTokens(n)) => return Err(ModelError::Truncation(n)),
        };
        proof {
            if certain_definition(definition@) {
                lemma_counts_uniquely(definition@);
            }
        }
        Ok(
            EmbedModel {
                tokenizer: tokenizer,
                counting_tokenizer: counting,
                searched: is_searching(definition),
            },
        )
    }

    /// True token count (no truncation). Used for chunking decisions.
    pub fn token_count(&self, text: &str) -> (r: usize)
        ensures
            may_count(self.definition(), text@, r as int),
    {
        proof {
            use_type_invariant(self);
        }
        match encode_text(&self.counting_tokenizer, self.searched, text) {
            Ok(e) => e.ids.len(),
            Err(_) => 0,
        }
    }

    /// Tokenize a single text for inference.
    pub fn encode_single(&self, text: &str) -> (r: Result<Encoded, ModelError>)
        ensures
            match r {
                Ok(e) => {
                    &&& answers(inference_tokenizer(self.definition()), text@).contains(Some(e@))
                    &&& e.mask@.len() == e.ids@.len()
                    &&& e.type_ids@.len() == e.ids@.len()
                },
                Err(e) => e is Tokenization && answers(
                    inference_tokenizer(self.definition()),
                    text@,
                ).contains(None),
            },
    {
        proof {
            use_type_invariant(self);
        }
        match encode_text(&self.tokenizer, self.searched, text) {
            Ok(e) => Ok(e),
            Err(e) => Err(ModelError::Tokenization(e)),
        }
    }

    /// Tokenize a batch of texts for one forward pass, filled up to one width.
    pub fn encode_batch(&self, batch: &Vec<String>) -> (r: Result<PaddedBatch, ModelError>)
        ensures
            match r {
                Ok(p) => {
                    &&& p.encodings@.len() == batch@.len()
                    &&& forall|i: int|
                        0 <= i < batch@.len() ==> answers(
                            inference_tokenizer(self.definition()),
                            batch@[i]@,
                        ).contains(Some((#[trigger] p.encodings@[i])@))
                    &&& forall|i: int|
                        0 <= i < batch@.len() ==> (#[trigger] p.encodings@[i]).mask@.len()
                            == p.encodings@[i].ids@.len() && p.encodings@[i].type_ids@.len()
                            == p.encodings@[i].ids@.len()
                    &&& p.width == widest(id_rows(p.encodings@))
                    &&& p.ids@ == padded(
                        id_rows(p.encodings@),
                        p.width as nat,
                    )
                    &&& p.mask@ == padded(
                        mask_rows(p.encodings@),
                        p.width as nat,
                    )
                    &&& p.type_ids@ == padded(
                        type_rows(p.encodings@),
                        p.width as nat,
                    )
                },
                Err(e) => e is Tokenization && exists|i: int|
                    0 <= i < batch@.len() && answers(
                        inference_tokenizer(self.definition()),
                        (#[trigger] batch@[i])@,
                    ).contains(None),
            },
    {
        let mut rows: Vec<Encoded> = Vec::new();
        let mut i: usize = 0;
        while i < batch.len()
            invariant
                i <= batch@.len(),
                rows@.len() == i,
                forall|k: int|
                    0 <= k < i ==> answers(
                        inference_tokenizer(self.definition()),
                        batch@[k]@,
                    ).contains(Some((#[trigger] rows@[k])@)) && rows@[k].mask@.len()
                        == rows@[k].ids@.len() && rows@[k].type_ids@.len() == rows@[k].ids@.len(),
            decreases batch@.len() - i,
        {
            match self.encode_single(batch[i].as_str()) {
                Ok(e) => rows.push(e),
                Err(e) => return Err(e),
            }
            i = i + 1;
        }
        Ok(pad_batch(rows))
    }

    /// Split text into line-boundary chunks that fit within token budget.
    pub fn split_text_chunks(&self, text: &str, prefix: &str, budget: usize) -> (r: Vec<String>)
        ensures
            may_split(self.definition(), text@, prefix@, budget as int, texts(r@)),
    {
        let all: Vec<String> = split_lines(text);
        let prefix_tokens: usize = self.token_count(prefix);
        let room: usize = chunk_room(budget, prefix_tokens);
        let mut counts: Vec<usize> = Vec::new();
        let mut i: usize = 0;
        while i < all.len()
            invariant
                i <= all@.len(),
                texts(all@) == lines(text@),
                counts@.len() == i,
                forall|k: int|
                    0 <= k < i ==> may_count(
                        self.definition(),
                        (#[trigger] all@[k])@,
                        counts@[k] as int,
                    ),
            decreases all@.len() - i,
        {
            counts.push(self.token_count(all[i].as_str()));
            i = i + 1;
        }
        proof {
            assert forall|k: int| 0 <= k < lines(text@).len() implies may_count(
                self.definition(),
                #[trigger] lines(text@)[k],
                numbers(counts@)[k],
            ) by {
                assert(texts(all@)[k] == all@[k]@);
            }
            assert(may_count_all(self.definition(), lines(text@), numbers(counts@)));
            assert(room == room_for(budget as int, prefix_tokens as int));
        }
        split_chunks(&all, &counts, room)
    }

    /// Group items into batches respecting token budget and max batch size. An item is
    /// given as its original index, its prefixed text and its number of tokens.
    pub fn make_batches(items: &Vec<(usize, String, usize)>) -> (r: Vec<Vec<usize>>)
        ensures
            batched(Seq::new(items@.len(), |i: int| items@[i].2 as u64), batch_places(r@)),
    {
        let mut tokens: Vec<u64> = Vec::new();
        let mut i: usize = 0;
        while i < items.len()
            invariant
                i <= items@.len(),
                tokens@ == Seq::new(i as nat, |k: int| items@[k].2 as u64),
            decreases items@.len() - i,
        {
            tokens.push(items[i].2 as u64);
            i = i + 1;
            assert(tokens@ =~= Seq::new(i as nat, |k: int| items@[k].2 as u64));
        }
        pack(&tokens)
    }
}

// ---------------------------------------------------------------------------
// Pieces
// ---------------------------------------------------------------------------

/// A text that is embedded in one go, with its prefix, and its number of tokens.
pub struct Piece {
    pub text: String,
    pub tokens: usize,
}

/// The contents of a [`Piece`].
pub struct PieceModel {
    pub text: Seq<char>,
    pub tokens: usize,
}

impl View for Piece {
    type V = PieceModel;

    open spec fn view(&self) -> PieceModel {
        PieceModel { text: self.text@, tokens: self.tokens }
    }
}

/// The contents of a list of pieces.
pub open spec fn piece_models(v: Seq<Piece>) -> Seq<PieceModel> {
    Seq::new(v.len(), |i: int| v[i]@)
}

/// The pieces of a text, and whether the text is embedded as a whole.
pub struct Plan {
    pub pieces: Seq<PieceModel>,
    pub single: bool,
}

/// Can these be the pieces of a text? Up to the threshold it is one piece; beyond it, each
/// chunk is one.
pub open spec fn may_plan(
    definition: Seq<u8>,
    prefix: Seq<char>,
    text: Seq<char>,
    plan: Plan,
) -> bool {
    exists|n: int| #[trigger]
        may_count(definition, prefix + text, n) && if n <= CHUNK_THRESHOLD {
            plan.single && plan.pieces == seq![
                PieceModel { text: prefix + text, tokens: n as usize },
            ]
        } else {
            !plan.single && exists|chunks: Seq<Seq<char>>| #[trigger]
                may_split(definition, text, prefix, CHUNK_THRESHOLD as int, chunks) && pieces_of(
                    definition,
                    prefix,
                    chunks,
                    plan.pieces,
                )
        }
}

/// Are these the chunks, each with the prefix before it and a number of tokens?
pub open spec fn pieces_of(
    definition: Seq<u8>,
    prefix: Seq<char>,
    chunks: Seq<Seq<char>>,
    pieces: Seq<PieceModel>,
) -> bool {
    pieces.len() == chunks.len() && forall|i: int|
        0 <= i < pieces.len() ==> (#[trigger] pieces[i]).text == prefix + chunks[i] && may_count(
            definition,
            pieces[i].text,
            pieces[i].tokens as int,
        )
}

impl EmbedModel {
    /// The pieces of a text, and whether it is embedded as a whole.
    pub fn plan(&self, text: &str, prefix: &str) -> (r: (Vec<Piece>, bool))
        ensures
            may_plan(
                self.definition(),
                prefix@,
                text@,
                (Plan { pieces: piece_models(r.0@), single: r.1 }),
            ),
    {
        let prefixed: String = concat(prefix, text);
        let n: usize = self.token_count(prefixed.as_str());
        let mut pieces: Vec<Piece> = Vec::new();
        if n <= CHUNK_THRESHOLD {
            pieces.push(Piece { text: prefixed, tokens: n });
            assert(piece_models(pieces@) =~= seq![
                PieceModel { text: prefix@ + text@, tokens: n },
            ]);
            return (pieces, true);
        }
        let chunks: Vec<String> = self.split_text_chunks(text, prefix, CHUNK_THRESHOLD);
        let mut i: usize = 0;
        while i < chunks.len()
            invariant
                i <= chunks@.len(),
                pieces@.len() == i,
                forall|k: int|
                    0 <= k < i ==> (#[trigger] pieces@[k]).text@ == prefix@ + chunks@[k]@
                        && may_count(
                        self.definition(),
                        pieces@[k].text@,
                        pieces@[k].tokens as int,
                    ),
            decreases chunks@.len() - i,
        {
            let piece: String = concat(prefix, chunks[i].as_str());
            let tokens: usize = self.token_count(piece.as_str());
            pieces.push(Piece { text: piece, tokens: tokens });
            i = i + 1;
        }
        proof {
            let views = piece_models(pieces@);
            assert forall|k: int| 0 <= k < views.len() implies (#[trigger] views[k]).text == prefix@
                + texts(chunks@)[k] && may_count(
                self.definition(),
                views[k].text,
                views[k].tokens as int,
            ) by {
                assert(views[k] == pieces@[k]@);
            }
            assert(pieces_of(self.definition(), prefix@, texts(chunks@), views));
        }
        (pieces, false)
    }
}

// ---------------------------------------------------------------------------
// Inference in batches
// ---------------------------------------------------------------------------

/// The numbers of tokens of the pieces.
pub open spec fn piece_tokens(pieces: Seq<PieceModel>) -> Seq<u64> {
    Seq::new(pieces.len(), |i: int| pieces[i].tokens as u64)
}

/// The texts of the pieces at the given places.
pub open spec fn batch_texts(pieces: Seq<PieceModel>, group: Seq<int>) -> Seq<Seq<char>> {
    Seq::new(group.len(), |k: int| pieces[group[k]].text)
}

/// The contents of a list of vectors.
pub open spec fn vectors(v: Seq<Vec<u32>>) -> Seq<Seq<u32>> {
    Seq::new(v.len(), |i: int| v[i]@)
}

/// Can inference on one batch of the pieces answer with these vectors?
pub open spec fn batch_answer<E, B: Fn(&Vec<String>) -> Result<Vec<Vec<u32>>, E>>(
    infer: B,
    pieces: Seq<PieceModel>,
    group: Seq<int>,
    answer: Seq<Seq<u32>>,
) -> bool {
    exists|batch: Vec<String>, out: Vec<Vec<u32>>| #[trigger]
        call_ensures(infer, (&batch,), Ok::<Vec<Vec<u32>>, E>(out)) && texts(batch@)
            == batch_texts(pieces, group) && vectors(out@) == answer
}

/// Are these the vectors that inference gives for the pieces, batch by batch?
pub open spec fn inferred<E, B: Fn(&Vec<String>) -> Result<Vec<Vec<u32>>, E>>(
    infer: B,
    pieces: Seq<PieceModel>,
    embs: Seq<Seq<u32>>,
) -> bool {
    embs.len() == pieces.len() && exists|batches: Seq<Seq<int>>| #[trigger]
        batched(piece_tokens(pieces), batches) && forall|b: int|
            0 <= b < batches.len() ==> batch_answer(
                infer,
                pieces,
                #[trigger] batches[b],
                Seq::new(batches[b].len(), |k: int| embs[batches[b][k]]),
            )
}

/// Does inference on one batch of the pieces answer?
pub open spec fn batch_answered<E, B: Fn(&Vec<String>) -> Result<Vec<Vec<u32>>, E>>(
    infer: B,
    pieces: Seq<PieceModel>,
    group: Seq<int>,
) -> bool {
    exists|answer: Seq<Seq<u32>>| #[trigger] batch_answer(infer, pieces, group, answer)
}

/// Does inference fail with this error on a batch of the pieces, after it answered on all
/// batches before it?
pub open spec fn inference_fails<E, B: Fn(&Vec<String>) -> Result<Vec<Vec<u32>>, E>>(
    infer: B,
    pieces: Seq<PieceModel>,
    e: E,
) -> bool {
    exists|batches: Seq<Seq<int>>, b: int, batch: Vec<String>|
        {
            &&& #[trigger] batched(piece_tokens(pieces), batches)
            &&& 0 <= b < batches.len()
            &&& texts(batch@) == batch_texts(pieces, #[trigger] batches[b])
            &&& #[trigger] call_ensures(infer, (&batch,), Err::<Vec<Vec<u32>>, E>(e))
            &&& forall|c: int| 0 <= c < b ==> batch_answered(infer, pieces, #[trigger] batches[c])
        }
}

/// Runs inference on all pieces, batch by batch, and gives the vector of each.
pub fn run_batches<E, B: Fn(&Vec<String>) -> Result<Vec<Vec<u32>>, E>>(
    pieces: &Vec<Piece>,
    infer: &B,
) -> (r: Result<Vec<Vec<u32>>, E>)
    requires
        forall|batch: Vec<String>| #[trigger] call_requires(*infer, (&batch,)),
        forall|batch: Vec<String>, out: Vec<Vec<u32>>| #[trigger]
            call_ensures(*infer, (&batch,), Ok::<Vec<Vec<u32>>, E>(out)) ==> out@.len()
                == batch@.len(),
    ensures
        match r {
            Ok(embs) => inferred(*infer, piece_models(pieces@), vectors(embs@)),
            Err(e) => inference_fails(*infer, piece_models(pieces@), e),
        },
{
    let ghost models = piece_models(pieces@);
    let mut tokens: Vec<u64> = Vec::new();
    let mut embs: Vec<Vec<u32>> = Vec::new();
    let mut i: usize = 0;
    while i < pieces.len()
        invariant
            i <= pieces@.len(),
            models == piece_models(pieces@),
            embs@.len() == i,
            tokens@ == piece_tokens(models).take(i as int),
        decreases pieces@.len() - i,
    {
        tokens.push(pieces[i].tokens as u64);
        embs.push(Vec::new());
        i = i + 1;
        assert(tokens@ =~= piece_tokens(models).take(i as int));
    }
    assert(tokens@ =~= piece_tokens(models));
    let batches: Vec<Vec<usize>> = pack(&tokens);
    let ghost groups = batch_places(batches@);
    let ghost mut answers: Seq<Seq<Seq<u32>>> = seq![];
    let mut b: usize = 0;
    while b < batches.len()
        invariant
            b <= batches@.len(),
            models == piece_models(pieces@),
            groups == batch_places(batches@),
            batched(piece_tokens(models), groups),
            embs@.len() == pieces@.len(),
            answers.len() == b,
            forall|batch: Vec<String>| #[trigger] call_requires(*infer, (&batch,)),
            forall|batch: Vec<String>, out: Vec<Vec<u32>>| #[trigger]
                call_ensures(*infer, (&batch,), Ok::<Vec<Vec<u32>>, E>(out)) ==> out@.len()
                    == batch@.len(),
            forall|c: int|
                0 <= c < b ==> (#[trigger] answers[c]).len() == groups[c].len() && batch_answer(
                    *infer,
                    models,
                    groups[c],
                    answers[c],
                ),
            forall|c: int, l: int|
                0 <= c < b && 0 <= l < groups[c].len() ==> embs@[#[trigger] groups[c][l]]@
                    == answers[c][l],
        decreases batches@.len() - b,
    {
        let group: &Vec<usize> = &batches[b];
        assert(groups[b as int] == places(group@));
        proof {
            lemma_group_in_range(piece_tokens(models), groups, b as int);
        }
        let mut batch: Vec<String> = Vec::new();
        let mut k: usize = 0;
        while k < group.len()
            invariant
                k <= group@.len(),
                b < groups.len(),
                models == piece_models(pieces@),
                groups[b as int] == places(group@),
                forall|l: int|
                    0 <= l < groups[b as int].len() ==> 0 <= #[trigger] groups[b as int][l]
                        < pieces@.len(),
                texts(batch@) == batch_texts(models, groups[b as int]).take(k as int),
            decreases group@.len() - k,
        {
            let ghost before = batch@;
            let at: usize = group[k];
            assert(groups[b as int][k as int] == at);
            batch.push(pieces[at].text.clone());
            k = k + 1;
            assert(texts(batch@) =~= texts(before).push(models[at as int].text));
            assert(texts(batch@) =~= batch_texts(models, groups[b as int]).take(k as int));
        }
        assert(texts(batch@) =~= batch_texts(models, groups[b as int]));
        assert(batch@.len() == texts(batch@).len());
        let out: Vec<Vec<u32>> = match infer(&batch) {
            Ok(out) => out,
            Err(e) => {
                assert(call_ensures(*infer, (&batch,), Err::<Vec<Vec<u32>>, E>(e)));
                proof {
                    assert forall|c: int| 0 <= c < b implies batch_answered(
                        *infer,
                        models,
                        #[trigger] groups[c],
                    ) by {
                        assert(batch_answer(*infer, models, groups[c], answers[c]));
                    }
                    assert(texts(batch@) == batch_texts(models, groups[b as int]));
                }
                return Err(e);
            },
        };
        assert(call_ensures(*infer, (&batch,), Ok::<Vec<Vec<u32>>, E>(out)));
        proof {
            answers = answers.push(vectors(out@));
            assert(batch_answer(*infer, models, groups[b as int], answers[b as int]));
        }
        let mut k: usize = 0;
        while k < group.len()
            invariant
                k <= group@.len() == out@.len(),
                b < batches@.len(),
                models == piece_models(pieces@),
                groups == batch_places(batches@),
                batched(piece_tokens(models), groups),
                groups[b as int] == places(group@),
                embs@.len() == pieces@.len(),
                answers.len() == b + 1,
                answers[b as int] == vectors(out@),
                forall|l: int|
                    0 <= l < groups[b as int].len() ==> 0 <= #[trigger] groups[b as int][l]
                        < pieces@.len(),
                forall|c: int, l: int|
                    0 <= c < b && 0 <= l < groups[c].len() ==> embs@[#[trigger] groups[c][l]]@
                        == answers[c][l],
                forall|l: int|
                    0 <= l < k ==> embs@[#[trigger] groups[b as int][l]]@ == answers[b as int][l],
            decreases group@.len() - k,
        {
            let at: usize = group[k];
            assert(groups[b as int][k as int] == at);
            let ghost before = embs@;
            embs.set(at, copy_vector(&out[k]));
            proof {
                assert forall|c: int, l: int| 0 <= c < b && 0 <= l < groups[c].len() implies embs@[
                    #[trigger] groups[c][l]
                ]@ == answers[c][l] by {
                    lemma_batch_places_differ(
                        piece_tokens(models),
                        groups,
                        b as int,
                        k as int,
                        c,
                        l,
                    );
                    lemma_group_in_range(piece_tokens(models), groups, c);
                    assert(before[groups[c][l]]@ == answers[c][l]);
                }
                assert forall|l: int| 0 <= l < k + 1 implies embs@[
                    #[trigger] groups[b as int][l]
                ]@ == answers[b as int][l] by {
                    if l < k {
                        lemma_batch_places_differ(
                            piece_tokens(models),
                            groups,
                            b as int,
                            k as int,
                            b as int,
                            l,
                        );
                        assert(before[groups[b as int][l]]@ == answers[b as int][l]);
                    }
                }
            }
            k = k + 1;
        }
        b = b + 1;
    }
    proof {
        let all = vectors(embs@);
        assert forall|c: int| 0 <= c < groups.len() implies batch_answer(
            *infer,
            models,
            #[trigger] groups[c],
            Seq::new(groups[c].len(), |k: int| all[groups[c][k]]),
        ) by {
            lemma_group_in_range(piece_tokens(models), groups, c);
            assert(answers[c].len() == groups[c].len());
            assert(answers[c] =~= Seq::new(groups[c].len(), |k: int| all[groups[c][k]])) by {
                assert forall|k: int| 0 <= k < groups[c].len() implies answers[c][k]
                    == all[groups[c][k]] by {
                    assert(embs@[groups[c][k]]@ == answers[c][k]);
                }
            }
        }
    }
    Ok(embs)
}

/// A batch lists places of texts.
proof fn lemma_group_in_range(tokens: Seq<u64>, groups: Seq<Seq<int>>, b: int)
    requires
        batched(tokens, groups),
        0 <= b < groups.len(),
    ensures
        forall|l: int| 0 <= l < groups[b].len() ==> 0 <= #[trigger] groups[b][l] < tokens.len(),
{
    law_batches_partition(tokens, groups);
    assert forall|l: int| 0 <= l < groups[b].len() implies 0 <= #[trigger] groups[b][l]
        < tokens.len() by {
        lemma_flattened(groups, b, l);
    }
}

// ---------------------------------------------------------------------------
// Embedding
// ---------------------------------------------------------------------------

/// The vectors, each with a number of tokens as its weight.
pub open spec fn weighted(embs: Seq<Seq<u32>>, pieces: Seq<PieceModel>) -> Seq<(Seq<u32>, usize)> {
    Seq::new(pieces.len(), |i: int| (embs[i], pieces[i].tokens))
}

/// The contents of a list of weighted vectors.
pub open spec fn weights(v: Seq<(Vec<u32>, usize)>) -> Seq<(Seq<u32>, usize)> {
    Seq::new(v.len(), |i: int| (v[i].0@, v[i].1))
}

/// Can this be the average of the vectors of the pieces, weighted by their numbers of
/// tokens?
pub open spec fn averaged<A: Fn(&Vec<(Vec<u32>, usize)>) -> Vec<u32>>(
    average: A,
    pieces: Seq<PieceModel>,
    embs: Seq<Seq<u32>>,
    v: Vec<u32>,
) -> bool {
    exists|w: Vec<(Vec<u32>, usize)>| #[trigger]
        call_ensures(average, (&w,), v) && weights(w@) == weighted(embs, pieces)
}

/// Can this be the vector of a document? It is that of its one piece if the document is
/// embedded as a whole, and the weighted average of those of its chunks otherwise.
pub open spec fn document_vector<A: Fn(&Vec<(Vec<u32>, usize)>) -> Vec<u32>>(
    average: A,
    plan: Plan,
    embs: Seq<Seq<u32>>,
    v: Vec<u32>,
) -> bool {
    if plan.single {
        v@ == embs[0]
    } else {
        averaged(average, plan.pieces, embs, v)
    }
}

/// The weighted average of the vectors `from..to`.
fn average_of<A: Fn(&Vec<(Vec<u32>, usize)>) -> Vec<u32>>(
    pieces: &Vec<Piece>,
    embs: &Vec<Vec<u32>>,
    from: usize,
    to: usize,
    average: &A,
) -> (r: Vec<u32>)
    requires
        from <= to <= pieces@.len(),
        embs@.len() == pieces@.len(),
        forall|w: Vec<(Vec<u32>, usize)>| #[trigger] call_requires(*average, (&w,)),
    ensures
        averaged(
            *average,
            piece_models(pieces@).subrange(from as int, to as int),
            vectors(embs@).subrange(from as int, to as int),
            r,
        ),
{
    let ghost models = piece_models(pieces@).subrange(from as int, to as int);
    let ghost vs = vectors(embs@).subrange(from as int, to as int);
    let mut w: Vec<(Vec<u32>, usize)> = Vec::new();
    let mut i: usize = from;
    while i < to
        invariant
            from <= i <= to <= pieces@.len(),
            embs@.len() == pieces@.len(),
            models == piece_models(pieces@).subrange(from as int, to as int),
            vs == vectors(embs@).subrange(from as int, to as int),
            weights(w@) == weighted(vs, models).take(i - from),
        decreases to - i,
    {
        let ghost before = w@;
        w.push((copy_vector(&embs[i]), pieces[i].tokens));
        i = i + 1;
        assert(weights(w@) =~= weights(before).push(weighted(vs, models)[i - from - 1]));
        assert(weights(w@) =~= weighted(vs, models).take(i - from));
    }
    assert(weights(w@) =~= weighted(vs, models));
    let r: Vec<u32> = average(&w);
    assert(call_ensures(*average, (&w,), r));
    r
}

/// Does inference on a single text answer this way?
pub open spec fn single_answer<E, S: Fn(&String) -> Result<Vec<u32>, E>>(
    single: S,
    text: Seq<char>,
    r: Result<Vec<u32>, E>,
) -> bool {
    exists|s: String| #[trigger] call_ensures(single, (&s,), r) && s@ == text
}

/// Can embedding a text with this plan give this result?
pub open spec fn text_result<
    E,
    S: Fn(&String) -> Result<Vec<u32>, E>,
    B: Fn(&Vec<String>) -> Result<Vec<Vec<u32>>, E>,
    A: Fn(&Vec<(Vec<u32>, usize)>) -> Vec<u32>,
>(single: S, infer: B, average: A, plan: Plan, r: Result<Vec<u32>, E>) -> bool {
    if plan.single {
        single_answer(single, plan.pieces[0].text, r)
    } else {
        match r {
            Ok(v) => exists|embs: Seq<Seq<u32>>| #[trigger]
                inferred(infer, plan.pieces, embs) && averaged(average, plan.pieces, embs, v),
            Err(e) => inference_fails(infer, plan.pieces, e),
        }
    }
}

/// The pieces of each plan.
pub open spec fn piece_lists(plans: Seq<Plan>) -> Seq<Seq<PieceModel>> {
    Seq::new(plans.len(), |d: int| plans[d].pieces)
}

/// Can these be the plans of the documents?
pub open spec fn may_plan_all(definition: Seq<u8>, docs: Seq<&str>, plans: Seq<Plan>) -> bool {
    plans.len() == docs.len() && forall|d: int|
        0 <= d < docs.len() ==> may_plan(
            definition,
            PREFIX_DOCUMENT@,
            docs[d]@,
            #[trigger] plans[d],
        )
}

/// The vectors of the pieces of document `d`, out of those of all pieces.
pub open spec fn vectors_of(embs: Seq<Seq<u32>>, plans: Seq<Plan>, d: int) -> Seq<Seq<u32>> {
    embs.subrange(
        flat_place(piece_lists(plans), d, 0),
        flat_place(piece_lists(plans), d, plans[d].pieces.len() as int),
    )
}

/// Can embedding the documents with these plans give these vectors, in the order of the
/// documents?
pub open spec fn documents_result<
    E,
    B: Fn(&Vec<String>) -> Result<Vec<Vec<u32>>, E>,
    A: Fn(&Vec<(Vec<u32>, usize)>) -> Vec<u32>,
>(infer: B, average: A, plans: Seq<Plan>, r: Result<Vec<Vec<u32>>, E>) -> bool {
    match r {
        Ok(vs) => vs@.len() == plans.len() && exists|embs: Seq<Seq<u32>>| #[trigger]
            inferred(infer, flattened(piece_lists(plans)), embs) && forall|d: int|
                0 <= d < plans.len() ==> document_vector(
                    average,
                    plans[d],
                    vectors_of(embs, plans, d),
                    #[trigger] vs@[d],
                ),
        Err(e) => inference_fails(infer, flattened(piece_lists(plans)), e),
    }
}

impl EmbedModel {
    /// Embed a single text with prefix, handling chunking if needed.
    ///
    /// `single` embeds one text, `infer` a batch of texts, and `average` is the average of
    /// weighted vectors.
    pub fn embed_text<
        E,
        S: Fn(&String) -> Result<Vec<u32>, E>,
        B: Fn(&Vec<String>) -> Result<Vec<Vec<u32>>, E>,
        A: Fn(&Vec<(Vec<u32>, usize)>) -> Vec<u32>,
    >(&self, text: &str, prefix: &str, single: S, infer: B, average: A) -> (r: Result<
        Vec<u32>,
        E,
    >)
        requires
            forall|s: String| #[trigger] call_requires(single, (&s,)),
            forall|batch: Vec<String>| #[trigger] call_requires(infer, (&batch,)),
            forall|batch: Vec<String>, out: Vec<Vec<u32>>| #[trigger]
                call_ensures(infer, (&batch,), Ok::<Vec<Vec<u32>>, E>(out)) ==> out@.len()
                    == batch@.len(),
            forall|w: Vec<(Vec<u32>, usize)>| #[trigger] call_requires(average, (&w,)),
        ensures
            exists|plan: Plan| #[trigger]
                may_plan(self.definition(), prefix@, text@, plan) && text_result(
                    single,
                    infer,
                    average,
                    plan,
                    r,
                ),
    {
        let (pieces, whole): (Vec<Piece>, bool) = self.plan(text, prefix);
        let ghost plan = Plan { pieces: piece_models(pieces@), single: whole };
        if whole {
            assert(piece_models(pieces@).len() == pieces@.len());
            let r: Result<Vec<u32>, E> = single(&pieces[0].text);
            assert(call_ensures(single, (&pieces@[0].text,), r));
            assert(text_result(single, infer, average, plan, r));
            return r;
        }
        match run_batches(&pieces, &infer) {
            Ok(embs) => {
                let n: usize = pieces.len();
                let v: Vec<u32> = average_of(&pieces, &embs, 0, n, &average);
                assert(plan.pieces.subrange(0, n as int) =~= plan.pieces);
                assert(vectors(embs@).subrange(0, n as int) =~= vectors(embs@));
                assert(text_result(single, infer, average, plan, Ok(v)));
                Ok(v)
            },
            Err(e) => {
                assert(text_result(single, infer, average, plan, Err(e)));
                Err(e)
            },
        }
    }

    /// Embed document content with search_document prefix.
    pub fn embed_document<
        E,
        S: Fn(&String) -> Result<Vec<u32>, E>,
        B: Fn(&Vec<String>) -> Result<Vec<Vec<u32>>, E>,
        A: Fn(&Vec<(Vec<u32>, usize)>) -> Vec<u32>,
    >(&self, content: &str, single: S, infer: B, average: A) -> (r: Result<Vec<u32>, E>)
        requires
            forall|s: String| #[trigger] call_requires(single, (&s,)),
            forall|batch: Vec<String>| #[trigger] call_requires(infer, (&batch,)),
            forall|batch: Vec<String>, out: Vec<Vec<u32>>| #[trigger]
                call_ensures(infer, (&batch,), Ok::<Vec<Vec<u32>>, E>(out)) ==> out@.len()
                    == batch@.len(),
            forall|w: Vec<(Vec<u32>, usize)>| #[trigger] call_requires(average, (&w,)),
        ensures
            exists|plan: Plan| #[trigger]
                may_plan(self.definition(), PREFIX_DOCUMENT@, content@, plan) && text_result(
                    single,
                    infer,
                    average,
                    plan,
                    r,
                ),
    {
        self.embed_text(content, PREFIX_DOCUMENT, single, infer, average)
    }

    /// Embed query text with search_query prefix.
    pub fn embed_query<
        E,
        S: Fn(&String) -> Result<Vec<u32>, E>,
        B: Fn(&Vec<String>) -> Result<Vec<Vec<u32>>, E>,
        A: Fn(&Vec<(Vec<u32>, usize)>) -> Vec<u32>,
    >(&self, query: &str, single: S, infer: B, average: A) -> (r: Result<Vec<u32>, E>)
        requires
            forall|s: String| #[trigger] call_requires(single, (&s,)),
            forall|batch: Vec<String>| #[trigger] call_requires(infer, (&batch,)),
            forall|batch: Vec<String>, out: Vec<Vec<u32>>| #[trigger]
                call_ensures(infer, (&batch,), Ok::<Vec<Vec<u32>>, E>(out)) ==> out@.len()
                    == batch@.len(),
            forall|w: Vec<(Vec<u32>, usize)>| #[trigger] call_requires(average, (&w,)),
        ensures
            exists|plan: Plan| #[trigger]
                may_plan(self.definition(), PREFIX_QUERY@, query@, plan) && text_result(
                    single,
                    infer,
                    average,
                    plan,
                    r,
                ),
    {
        self.embed_text(query, PREFIX_QUERY, single, infer, average)
    }

    /// Embed multiple documents with batched inference.
    /// Returns embeddings in the same order as input texts.
    pub fn embed_documents<
        E,
        B: Fn(&Vec<String>) -> Result<Vec<Vec<u32>>, E>,
        A: Fn(&Vec<(Vec<u32>, usize)>) -> Vec<u32>,
    >(&self, docs: &[&str], infer: B, average: A) -> (r: Result<Vec<Vec<u32>>, E>)
        requires
            forall|batch: Vec<String>| #[trigger] call_requires(infer, (&batch,)),
            forall|batch: Vec<String>, out: Vec<Vec<u32>>| #[trigger]
                call_ensures(infer, (&batch,), Ok::<Vec<Vec<u32>>, E>(out)) ==> out@.len()
                    == batch@.len(),
            forall|w: Vec<(Vec<u32>, usize)>| #[trigger] call_requires(average, (&w,)),
        ensures
            exists|plans: Seq<Plan>| #[trigger]
                may_plan_all(self.definition(), docs@, plans) && documents_result(
                    infer,
                    average,
                    plans,
                    r,
                ),
    {
        let n: usize = docs.len();
        let mut pieces: Vec<Piece> = Vec::new();
        let mut ends: Vec<usize> = Vec::new();
        let mut whole: Vec<bool> = Vec::new();
        let ghost mut plans: Seq<Plan> = seq![];
        let mut d: usize = 0;
        while d < n
            invariant
                d <= n == docs@.len(),
                plans.len() == d,
                ends@.len() == d,
                whole@.len() == d,
                forall|c: int|
                    0 <= c < d ==> may_plan(
                        self.definition(),
                        PREFIX_DOCUMENT@,
                        docs@[c]@,
                        #[trigger] plans[c],
                    ),
                forall|c: int| 0 <= c < d ==> #[trigger] whole@[c] == plans[c].single,
                forall|c: int|
                    0 <= c < d ==> #[trigger] ends@[c] == flattened(
                        piece_lists(plans).take(c + 1),
                    ).len(),
                piece_models(pieces@) == flattened(piece_lists(plans)),
            decreases n - d,
        {
            let (ps, single): (Vec<Piece>, bool) = self.plan(docs[d], PREFIX_DOCUMENT);
            let mut ps = ps;
            let ghost plan = Plan { pieces: piece_models(ps@), single: single };
            let ghost before = pieces@;
            let ghost earlier = plans;
            pieces.append(&mut ps);
            proof {
                plans = plans.push(plan);
                assert(piece_lists(plans).drop_last() =~= piece_lists(earlier));
                assert(piece_lists(plans).last() == plan.pieces);
                assert(piece_models(pieces@) =~= piece_models(before) + plan.pieces);
                assert(piece_lists(plans).take(d + 1) =~= piece_lists(plans));
                assert forall|c: int| 0 <= c < d implies #[trigger] ends@[c] == flattened(
                    piece_lists(plans).take(c + 1),
                ).len() by {
                    assert(piece_lists(plans).take(c + 1) =~= piece_lists(earlier).take(c + 1));
                }
            }
            assert(piece_models(pieces@).len() == pieces@.len());
            ends.push(pieces.len());
            whole.push(single);
            d = d + 1;
        }
        assert(may_plan_all(self.definition(), docs@, plans));
        let embs: Vec<Vec<u32>> = match run_batches(&pieces, &infer) {
            Ok(embs) => embs,
            Err(e) => {
                assert(documents_result(infer, average, plans, Err(e)));
                return Err(e);
            },
        };
        let ghost all = vectors(embs@);
        assert(all.len() == embs@.len());
        assert(piece_models(pieces@).len() == pieces@.len());
        let mut r: Vec<Vec<u32>> = Vec::new();
        let mut d: usize = 0;
        while d < n
            invariant
                d <= n,
                n == plans.len() == ends@.len() == whole@.len(),
                r@.len() == d,
                embs@.len() == pieces@.len(),
                all == vectors(embs@),
                piece_models(pieces@) == flattened(piece_lists(plans)),
                may_plan_all(self.definition(), docs@, plans),
                forall|w: Vec<(Vec<u32>, usize)>| #[trigger] call_requires(average, (&w,)),
                forall|c: int| 0 <= c < n ==> #[trigger] whole@[c] == plans[c].single,
                forall|c: int|
                    0 <= c < n ==> #[trigger] ends@[c] == flattened(
                        piece_lists(plans).take(c + 1),
                    ).len(),
                forall|c: int|
                    0 <= c < d ==> document_vector(
                        average,
                        plans[c],
                        vectors_of(all, plans, c),
                        #[trigger] r@[c],
                    ),
            decreases n - d,
        {
            let from: usize = if d == 0 {
                0
            } else {
                ends[d - 1]
            };
            let to: usize = ends[d];
            proof {
                lemma_document_pieces(plans, d as int);
                assert(may_plan(
                    self.definition(),
                    PREFIX_DOCUMENT@,
                    docs@[d as int]@,
                    plans[d as int],
                ));
            }
            let v: Vec<u32> = if whole[d] {
                copy_vector(&embs[from])
            } else {
                average_of(&pieces, &embs, from, to, &average)
            };
            proof {
                assert(vectors_of(all, plans, d as int) =~= all.subrange(from as int, to as int));
                assert(document_vector(
                    average,
                    plans[d as int],
                    vectors_of(all, plans, d as int),
                    v,
                ));
            }
            r.push(v);
            d = d + 1;
        }
        assert(documents_result(infer, average, plans, Ok(r)));
        Ok(r)
    }
}

/// Where the pieces of document `d` stand among the pieces of all documents.
proof fn lemma_document_pieces(plans: Seq<Plan>, d: int)
    requires
        0 <= d < plans.len(),
    ensures
        ({
            let lists = piece_lists(plans);
            let from = flat_place(lists, d, 0);
            let to = flat_place(lists, d, plans[d].pieces.len() as int);
            &&& 0 <= from <= to <= flattened(lists).len()
            &&& from == flattened(lists.take(d)).len()
            &&& to == flattened(lists.take(d + 1)).len()
            &&& d == 0 ==> from == 0
            &&& flattened(lists).subrange(from, to) == plans[d].pieces
        }),
{
    let lists = piece_lists(plans);
    let t = lists.take(d + 1);
    assert(t.drop_last() =~= lists.take(d));
    assert(t.last() == plans[d].pieces);
    if d == 0 {
        assert(lists.take(0) =~= seq![]);
        assert(flattened(lists.take(0)) =~= seq![]);
    }
    lemma_prefix_shorter(lists, d);
    lemma_flat_slice(lists, d);
}

/// The lists up to and with list `d` are not longer than all lists together.
proof fn lemma_prefix_shorter<A>(lists: Seq<Seq<A>>, d: int)
    requires
        0 <= d < lists.len(),
    ensures
        flattened(lists.take(d + 1)).len() <= flattened(lists).len(),
    decreases lists.len(),
{
    if d + 1 < lists.len() {
        lemma_prefix_shorter(lists.drop_last(), d);
        assert(lists.drop_last().take(d + 1) =~= lists.take(d + 1));
    } else {
        assert(lists.take(d + 1) =~= lists);
    }
}

/// A list is found again in all lists one behind the other.
proof fn lemma_flat_slice<A>(lists: Seq<Seq<A>>, d: int)
    requires
        0 <= d < lists.len(),
    ensures
        flattened(lists).subrange(
            flat_place(lists, d, 0),
            flat_place(lists, d, lists[d].len() as int),
        ) == lists[d],
{
    let all = flattened(lists);
    let from = flat_place(lists, d, 0);
    lemma_prefix_shorter(lists, d);
    assert(lists.take(d + 1).drop_last() =~= lists.take(d));
    assert forall|k: int| 0 <= k < lists[d].len() implies all.subrange(
        from,
        from + lists[d].len(),
    )[k] == lists[d][k] by {
        lemma_flattened(lists, d, k);
    }
    assert(all.subrange(from, from + lists[d].len()) =~= lists[d]);
}

// ---------------------------------------------------------------------------
// Laws
// ---------------------------------------------------------------------------

/// Does every text have one number of tokens?
pub open spec fn counts_uniquely(definition: Seq<u8>) -> bool {
    forall|text: Seq<char>, m: int, n: int| #[trigger]
        may_count(definition, text, m) && #[trigger] may_count(definition, text, n) ==> m == n
}

/// Where tokenizers have one answer for each text, every text has one number of tokens.
proof fn lemma_counts_uniquely(definition: Seq<u8>)
    requires
        sound_definition(definition),
        answers_uniquely(definition),
    ensures
        counts_uniquely(definition),
{
    assert forall|text: Seq<char>, m: int, n: int| #[trigger]
        may_count(definition, text, m) && #[trigger] may_count(definition, text, n) implies m
        == n by {
        let counting = counting_tokenizer(definition);
        assert(encodes(counting));
        if manageable(definition, text) {
            let only = choose|answer: Option<TokenRows>| encodings(counting, text) == set![answer];
            assert(encodings(counting, text) == set![only]);
        }
    }
}

/// Is every vector that inference on one text gives `f` of the text?
pub open spec fn single_by<E, S: Fn(&String) -> Result<Vec<u32>, E>>(
    single: S,
    f: spec_fn(Seq<char>) -> Seq<u32>,
) -> bool {
    forall|s: String, v: Vec<u32>| #[trigger]
        call_ensures(single, (&s,), Ok::<Vec<u32>, E>(v)) ==> v@ == f(s@)
}

/// Is every vector that inference on a batch gives `f` of the text?
pub open spec fn infer_by<E, B: Fn(&Vec<String>) -> Result<Vec<Vec<u32>>, E>>(
    infer: B,
    f: spec_fn(Seq<char>) -> Seq<u32>,
) -> bool {
    forall|batch: Vec<String>, out: Vec<Vec<u32>>| #[trigger]
        call_ensures(infer, (&batch,), Ok::<Vec<Vec<u32>>, E>(out)) ==> vectors(out@)
            == texts(batch@).map_values(f)
}

/// Is every average `g` of the weighted vectors?
pub open spec fn average_by<A: Fn(&Vec<(Vec<u32>, usize)>) -> Vec<u32>>(
    average: A,
    g: spec_fn(Seq<(Seq<u32>, usize)>) -> Seq<u32>,
) -> bool {
    forall|w: Vec<(Vec<u32>, usize)>, v: Vec<u32>| #[trigger]
        call_ensures(average, (&w,), v) ==> v@ == g(weights(w@))
}

/// The vector of a text with this plan, where inference gives `f` of each piece and averaging
/// is `g`.
pub open spec fn vector_of(
    f: spec_fn(Seq<char>) -> Seq<u32>,
    g: spec_fn(Seq<(Seq<u32>, usize)>) -> Seq<u32>,
    plan: Plan,
) -> Seq<u32> {
    if plan.single {
        f(plan.pieces[0].text)
    } else {
        g(weighted(Seq::new(plan.pieces.len(), |i: int| f(plan.pieces[i].text)), plan.pieces))
    }
}

/// Where every text has one number of tokens, every text has one plan.
pub proof fn law_plan_is_unique(
    definition: Seq<u8>,
    prefix: Seq<char>,
    text: Seq<char>,
    p: Plan,
    q: Plan,
)
    requires
        counts_uniquely(definition),
        may_plan(definition, prefix, text, p),
        may_plan(definition, prefix, text, q),
    ensures
        p == q,
{
    let m = choose|n: int| #[trigger]
        may_count(definition, prefix + text, n) && if n <= CHUNK_THRESHOLD {
            p.single && p.pieces == seq![PieceModel { text: prefix + text, tokens: n as usize }]
        } else {
            !p.single && exists|chunks: Seq<Seq<char>>| #[trigger]
                may_split(definition, text, prefix, CHUNK_THRESHOLD as int, chunks) && pieces_of(
                    definition,
                    prefix,
                    chunks,
                    p.pieces,
                )
        };
    assert(may_count(definition, prefix + text, m));
    if !p.single {
        let budget = CHUNK_THRESHOLD as int;
        let c = choose|chunks: Seq<Seq<char>>| #[trigger]
            may_split(definition, text, prefix, budget, chunks) && pieces_of(
                definition,
                prefix,
                chunks,
                p.pieces,
            );
        let d = choose|chunks: Seq<Seq<char>>| #[trigger]
            may_split(definition, text, prefix, budget, chunks) && pieces_of(
                definition,
                prefix,
                chunks,
                q.pieces,
            );
        lemma_split_unique(definition, text, prefix, budget, c, d);
        assert forall|i: int| 0 <= i < p.pieces.len() implies p.pieces[i] == q.pieces[i] by {
            let a = p.pieces[i];
            let b = q.pieces[i];
            assert(a.text == b.text);
            assert(may_count(definition, a.text, a.tokens as int));
            assert(may_count(definition, b.text, b.tokens as int));
        }
        assert(p.pieces =~= q.pieces);
    }
}

/// Where every text has one number of tokens, every text has one way to be split.
proof fn lemma_split_unique(
    definition: Seq<u8>,
    text: Seq<char>,
    prefix: Seq<char>,
    budget: int,
    a: Seq<Seq<char>>,
    b: Seq<Seq<char>>,
)
    requires
        counts_uniquely(definition),
        may_split(definition, text, prefix, budget, a),
        may_split(definition, text, prefix, budget, b),
    ensures
        a == b,
{
    let (m, x) = choose|prefix_tokens: int, counts: Seq<int>|
        may_count(definition, prefix, prefix_tokens) && #[trigger] may_count_all(
            definition,
            lines(text),
            counts,
        ) && a == chunk_texts(lines(text), counts, #[trigger] room_for(budget, prefix_tokens));
    let (n, y) = choose|prefix_tokens: int, counts: Seq<int>|
        may_count(definition, prefix, prefix_tokens) && #[trigger] may_count_all(
            definition,
            lines(text),
            counts,
        ) && b == chunk_texts(lines(text), counts, #[trigger] room_for(budget, prefix_tokens));
    assert(m == n);
    assert forall|i: int| 0 <= i < x.len() implies x[i] == y[i] by {
        assert(may_count(definition, lines(text)[i], x[i]));
        assert(may_count(definition, lines(text)[i], y[i]));
    }
    assert(x =~= y);
}

/// Where inference gives `f` of each text, the vector of each piece is `f` of its text.
proof fn lemma_inferred_by<E, B: Fn(&Vec<String>) -> Result<Vec<Vec<u32>>, E>>(
    infer: B,
    f: spec_fn(Seq<char>) -> Seq<u32>,
    pieces: Seq<PieceModel>,
    embs: Seq<Seq<u32>>,
)
    requires
        infer_by::<E, B>(infer, f),
        inferred::<E, B>(infer, pieces, embs),
    ensures
        embs == Seq::new(pieces.len(), |i: int| f(pieces[i].text)),
{
    let tokens = piece_tokens(pieces);
    let batches = choose|batches: Seq<Seq<int>>| #[trigger]
        batched(tokens, batches) && forall|b: int|
            0 <= b < batches.len() ==> batch_answer::<E, B>(
                infer,
                pieces,
                #[trigger] batches[b],
                Seq::new(batches[b].len(), |k: int| embs[batches[b][k]]),
            );
    law_batches_partition(tokens, batches);
    assert forall|i: int| 0 <= i < pieces.len() implies embs[i] == f(pieces[i].text) by {
        assert(flattened(batches).contains(i));
        let at = choose|at: int| 0 <= at < flattened(batches).len() && flattened(batches)[at] == i;
        let (b, k) = lemma_flat_source(batches, at);
        let group = batches[b];
        let answer = Seq::new(group.len(), |k: int| embs[group[k]]);
        assert(batch_answer::<E, B>(infer, pieces, group, answer));
        let (batch, out) = choose|batch: Vec<String>, out: Vec<Vec<u32>>| #[trigger]
            call_ensures(infer, (&batch,), Ok::<Vec<Vec<u32>>, E>(out)) && texts(batch@)
                == batch_texts(pieces, group) && vectors(out@) == answer;
        assert(call_ensures(infer, (&batch,), Ok::<Vec<Vec<u32>>, E>(out)));
        assert(answer[k] == texts(batch@).map_values(f)[k]);
        assert(texts(batch@)[k] == pieces[group[k]].text);
    }
    assert(embs =~= Seq::new(pieces.len(), |i: int| f(pieces[i].text)));
}

/// Where inference gives `f` of each text and averaging is `g`, the vector of a text is
/// determined by its plan.
proof fn lemma_text_vector<
    E,
    S: Fn(&String) -> Result<Vec<u32>, E>,
    B: Fn(&Vec<String>) -> Result<Vec<Vec<u32>>, E>,
    A: Fn(&Vec<(Vec<u32>, usize)>) -> Vec<u32>,
>(
    single: S,
    infer: B,
    average: A,
    f: spec_fn(Seq<char>) -> Seq<u32>,
    g: spec_fn(Seq<(Seq<u32>, usize)>) -> Seq<u32>,
    plan: Plan,
    v: Vec<u32>,
)
    requires
        single_by::<E, S>(single, f),
        infer_by::<E, B>(infer, f),
        average_by(average, g),
        text_result::<E, S, B, A>(single, infer, average, plan, Ok::<Vec<u32>, E>(v)),
    ensures
        v@ == vector_of(f, g, plan),
{
    lemma_vector_by::<E, S, B, A>(single, infer, average, f, f, g, plan, v);
}

/// Embedding is determined by the text and its prefix: where every text has one number of
/// tokens, inference gives `f` of each text and averaging is `g`, the vectors of one text
/// with one prefix are the same whenever embedding succeeds. So the vector of a query or of
/// a document is that of the text with its prefix.
pub proof fn law_embedding_is_determined<
    E,
    S: Fn(&String) -> Result<Vec<u32>, E>,
    B: Fn(&Vec<String>) -> Result<Vec<Vec<u32>>, E>,
    A: Fn(&Vec<(Vec<u32>, usize)>) -> Vec<u32>,
>(
    definition: Seq<u8>,
    prefix: Seq<char>,
    text: Seq<char>,
    single: S,
    infer: B,
    average: A,
    f: spec_fn(Seq<char>) -> Seq<u32>,
    g: spec_fn(Seq<(Seq<u32>, usize)>) -> Seq<u32>,
    p: Plan,
    v: Vec<u32>,
    q: Plan,
    w: Vec<u32>,
)
    requires
        counts_uniquely(definition),
        single_by::<E, S>(single, f),
        infer_by::<E, B>(infer, f),
        average_by(average, g),
        may_plan(definition, prefix, text, p),
        text_result::<E, S, B, A>(single, infer, average, p, Ok::<Vec<u32>, E>(v)),
        may_plan(definition, prefix, text, q),
        text_result::<E, S, B, A>(single, infer, average, q, Ok::<Vec<u32>, E>(w)),
    ensures
        v@ == w@,
        v@ == vector_of(f, g, p),
{
    law_plan_is_unique(definition, prefix, text, p, q);
    lemma_text_vector::<E, S, B, A>(single, infer, average, f, g, p, v);
    lemma_text_vector::<E, S, B, A>(single, infer, average, f, g, q, w);
}

/// Embedding documents together is the same as embedding each on its own: where every text
/// has one number of tokens, inference gives `f` of each text, alone or in a batch, and
/// averaging is `g`, there is one vector for each document, in order, and it is the one that
/// embedding the document on its own gives.
pub proof fn law_documents_as_on_their_own<
    E,
    S: Fn(&String) -> Result<Vec<u32>, E>,
    B: Fn(&Vec<String>) -> Result<Vec<Vec<u32>>, E>,
    A: Fn(&Vec<(Vec<u32>, usize)>) -> Vec<u32>,
>(
    definition: Seq<u8>,
    docs: Seq<&str>,
    single: S,
    infer: B,
    average: A,
    f: spec_fn(Seq<char>) -> Seq<u32>,
    g: spec_fn(Seq<(Seq<u32>, usize)>) -> Seq<u32>,
    plans: Seq<Plan>,
    vs: Vec<Vec<u32>>,
)
    requires
        counts_uniquely(definition),
        single_by::<E, S>(single, f),
        infer_by::<E, B>(infer, f),
        average_by(average, g),
        may_plan_all(definition, docs, plans),
        documents_result::<E, B, A>(infer, average, plans, Ok::<Vec<Vec<u32>>, E>(vs)),
    ensures
        vs@.len() == docs.len(),
        forall|d: int, p: Plan, v: Vec<u32>|
            0 <= d < docs.len() && #[trigger] may_plan(
                definition,
                PREFIX_DOCUMENT@,
                docs[d]@,
                p,
            ) && #[trigger] text_result::<E, S, B, A>(
                single,
                infer,
                average,
                p,
                Ok::<Vec<u32>, E>(v),
            ) ==> vs@[d]@ == v@,
{
    let lists = piece_lists(plans);
    let all = flattened(lists);
    let embs = choose|embs: Seq<Seq<u32>>| #[trigger]
        inferred::<E, B>(infer, all, embs) && forall|d: int|
            0 <= d < plans.len() ==> document_vector(
                average,
                plans[d],
                vectors_of(embs, plans, d),
                #[trigger] vs@[d],
            );
    lemma_inferred_by::<E, B>(infer, f, all, embs);
    assert forall|d: int, p: Plan, v: Vec<u32>|
        0 <= d < docs.len() && #[trigger] may_plan(
            definition,
            PREFIX_DOCUMENT@,
            docs[d]@,
            p,
        ) && #[trigger] text_result::<E, S, B, A>(
            single,
            infer,
            average,
            p,
            Ok::<Vec<u32>, E>(v),
        ) implies vs@[d]@ == v@ by {
        let plan = plans[d];
        assert(may_plan(definition, PREFIX_DOCUMENT@, docs[d]@, plan));
        law_plan_is_unique(definition, PREFIX_DOCUMENT@, docs[d]@, plan, p);
        lemma_text_vector::<E, S, B, A>(single, infer, average, f, g, p, v);
        lemma_document_pieces(plans, d);
        let from = flat_place(lists, d, 0);
        let own = vectors_of(embs, plans, d);
        assert(own.len() == plan.pieces.len());
        assert forall|i: int| 0 <= i < own.len() implies own[i] == f(plan.pieces[i].text) by {
            assert(all.subrange(from, from + plan.pieces.len())[i] == plan.pieces[i]);
        }
        assert(own =~= Seq::new(plan.pieces.len(), |i: int| f(plan.pieces[i].text)));
        assert(document_vector(average, plan, own, vs@[d]));
        if plan.single {
            assert(plan.pieces.len() == 1);
        }
    }
}

// ---------------------------------------------------------------------------
// Laws on what is embedded
// ---------------------------------------------------------------------------

/// The texts of pieces, and their numbers of tokens.
pub open spec fn counted_texts(pieces: Seq<Piece>) -> Seq<(Seq<char>, usize)> {
    Seq::new(pieces.len(), |i: int| (pieces[i].text@, pieces[i].tokens))
}

/// Are the pieces runs of the lines of the text, with the prefix before each of them? The
/// prefix has `p` tokens and the lines have `counts`. The runs stand one behind the other,
/// from the first line to the last: piece `g` holds the lines `cuts[g]..cuts[g + 1]` with line
/// feeds between them. A piece of more than one line is within 512 tokens, of which the prefix
/// takes its own and two are special, and with the next line it would not be. Where the prefix
/// leaves no room there are no pieces. Each piece comes with its own number of tokens.
pub open spec fn cut_at_lines(
    definition: Seq<u8>,
    prefix: Seq<char>,
    text: Seq<char>,
    pieces: Seq<(Seq<char>, usize)>,
    p: int,
    counts: Seq<int>,
    cuts: Seq<int>,
) -> bool {
    let ls = lines(text);
    &&& may_count(definition, prefix, p)
    &&& counts.len() == ls.len()
    &&& forall|i: int| 0 <= i < ls.len() ==> may_count(definition, #[trigger] ls[i], counts[i])
    &&& forall|g: int|
        0 <= g < pieces.len() ==> may_count(
            definition,
            (#[trigger] pieces[g]).0,
            pieces[g].1 as int,
        )
    &&& p + 2 >= 512 ==> pieces.len() == 0
    &&& p + 2 < 512 ==> {
        &&& cuts.len() == pieces.len() + 1
        &&& cuts[0] == 0
        &&& cuts[cuts.len() - 1] == ls.len()
        &&& forall|g: int|
            0 <= g < pieces.len() ==> {
                &&& 0 <= #[trigger] cuts[g] < cuts[g + 1] <= ls.len()
                &&& pieces[g].0 == prefix + join(ls.subrange(cuts[g], cuts[g + 1]), "\n"@)
                &&& cuts[g + 1] == cuts[g] + 1 || p + 2 + cost_between(
                    counts,
                    cuts[g],
                    cuts[g + 1],
                ) <= 512
                &&& cuts[g + 1] < ls.len() ==> p + 2 + cost_between(
                    counts,
                    cuts[g],
                    cuts[g + 1] + 1,
                ) > 512
            }
    }
}

/// A way to split a text is a way to cut it at its lines.
proof fn lemma_split_cuts(
    definition: Seq<u8>,
    text: Seq<char>,
    prefix: Seq<char>,
    budget: int,
    chunks: Seq<Seq<char>>,
) -> (r: (int, Seq<int>, Seq<int>))
    requires
        may_split(definition, text, prefix, budget, chunks),
    ensures
        ({
            let (p, counts, cuts) = r;
            let ls = lines(text);
            &&& may_count(definition, prefix, p)
            &&& counts.len() == ls.len()
            &&& forall|i: int|
                0 <= i < ls.len() ==> may_count(definition, #[trigger] ls[i], counts[i])
            &&& p + 2 >= budget ==> chunks.len() == 0
            &&& p + 2 < budget ==> {
                &&& join(chunks, "\n"@) == join(ls, "\n"@)
                &&& cuts.len() == chunks.len() + 1
                &&& cuts[0] == 0
                &&& cuts[cuts.len() - 1] == ls.len()
                &&& forall|g: int|
                    0 <= g < chunks.len() ==> {
                        &&& 0 <= #[trigger] cuts[g] < cuts[g + 1] <= ls.len()
                        &&& chunks[g] == join(ls.subrange(cuts[g], cuts[g + 1]), "\n"@)
                        &&& cuts[g + 1] == cuts[g] + 1 || p + 2 + cost_between(
                            counts,
                            cuts[g],
                            cuts[g + 1],
                        ) <= budget
                        &&& cuts[g + 1] < ls.len() ==> p + 2 + cost_between(
                            counts,
                            cuts[g],
                            cuts[g + 1] + 1,
                        ) > budget
                    }
            }
        }),
{
    let ls = lines(text);
    let (p, counts) = choose|prefix_tokens: int, counts: Seq<int>|
        may_count(definition, prefix, prefix_tokens) && #[trigger] may_count_all(
            definition,
            lines(text),
            counts,
        ) && chunks == chunk_texts(lines(text), counts, #[trigger] room_for(budget, prefix_tokens));
    let room = room_for(budget, p);
    if p + 2 < budget {
        let cuts = law_chunks_are_runs_of_lines(ls, counts, room);
        law_chunks_make_up_the_text(ls, counts, room);
        (p, counts, cuts)
    } else {
        (p, counts, seq![])
    }
}

/// What holds of a plan.
proof fn lemma_plan_cuts(
    definition: Seq<u8>,
    prefix: Seq<char>,
    text: Seq<char>,
    plan: Plan,
) -> (r: (int, int, Seq<int>, Seq<int>))
    requires
        may_plan(definition, prefix, text, plan),
    ensures
        ({
            let (n, p, counts, cuts) = r;
            let pieces = Seq::new(
                plan.pieces.len(),
                |i: int| (plan.pieces[i].text, plan.pieces[i].tokens),
            );
            &&& may_count(definition, prefix + text, n)
            &&& plan.single <==> n <= 512
            &&& plan.single ==> plan.pieces.len() == 1 && plan.pieces[0].text == prefix + text
                && plan.pieces[0].tokens == n
            &&& !plan.single ==> cut_at_lines(definition, prefix, text, pieces, p, counts, cuts)
            &&& !plan.single && p + 2 < 512 ==> join(
                Seq::new(plan.pieces.len(), |i: int| plan.pieces[i].text.skip(prefix.len() as int)),
                "\n"@,
            ) == join(lines(text), "\n"@)
        }),
{
    let n = choose|n: int| #[trigger]
        may_count(definition, prefix + text, n) && if n <= CHUNK_THRESHOLD {
            plan.single && plan.pieces == seq![
                PieceModel { text: prefix + text, tokens: n as usize },
            ]
        } else {
            !plan.single && exists|chunks: Seq<Seq<char>>| #[trigger]
                may_split(definition, text, prefix, CHUNK_THRESHOLD as int, chunks) && pieces_of(
                    definition,
                    prefix,
                    chunks,
                    plan.pieces,
                )
        };
    if plan.single {
        (n, 0, seq![], seq![])
    } else {
        let chunks = choose|chunks: Seq<Seq<char>>| #[trigger]
            may_split(definition, text, prefix, CHUNK_THRESHOLD as int, chunks) && pieces_of(
                definition,
                prefix,
                chunks,
                plan.pieces,
            );
        let (p, counts, cuts) = lemma_split_cuts(
            definition,
            text,
            prefix,
            CHUNK_THRESHOLD as int,
            chunks,
        );
        let pieces = Seq::new(
            plan.pieces.len(),
            |i: int| (plan.pieces[i].text, plan.pieces[i].tokens),
        );
        assert forall|g: int| 0 <= g < pieces.len() implies may_count(
            definition,
            (#[trigger] pieces[g]).0,
            pieces[g].1 as int,
        ) && pieces[g].0 == prefix + chunks[g] by {
            assert(plan.pieces[g].text == prefix + chunks[g]);
        }
        let bare = Seq::new(
            plan.pieces.len(),
            |i: int| plan.pieces[i].text.skip(prefix.len() as int),
        );
        assert forall|g: int| 0 <= g < bare.len() implies bare[g] == chunks[g] by {
            assert(plan.pieces[g].text == prefix + chunks[g]);
            assert((prefix + chunks[g]).skip(prefix.len() as int) =~= chunks[g]);
        }
        assert(bare =~= chunks);
        assert(cut_at_lines(definition, prefix, text, pieces, p, counts, cuts)) by {
            if p + 2 < 512 {
                assert forall|g: int| 0 <= g < pieces.len() implies {
                    &&& 0 <= #[trigger] cuts[g] < cuts[g + 1] <= lines(text).len()
                    &&& pieces[g].0 == prefix + join(
                        lines(text).subrange(cuts[g], cuts[g + 1]),
                        "\n"@,
                    )
                    &&& cuts[g + 1] == cuts[g] + 1 || p + 2 + cost_between(
                        counts,
                        cuts[g],
                        cuts[g + 1],
                    ) <= 512
                    &&& cuts[g + 1] < lines(text).len() ==> p + 2 + cost_between(
                        counts,
                        cuts[g],
                        cuts[g + 1] + 1,
                    ) > 512
                } by {
                    assert(pieces[g].0 == prefix + chunks[g]);
                }
            }
        }
        (n, p, counts, cuts)
    }
}

/// A long text is embedded whole: where the prefix leaves room for lines, the pieces of a text
/// that is not one piece, each without the prefix that stands before it, and with line feeds
/// between them, are the lines of the text with line feeds between them.
pub proof fn law_plan_makes_up_the_text(
    definition: Seq<u8>,
    prefix: Seq<char>,
    text: Seq<char>,
    plan: Plan,
)
    requires
        may_plan(definition, prefix, text, plan),
        !plan.single,
        forall|p: int| may_count(definition, prefix, p) ==> p + 2 < 512,
    ensures
        forall|i: int|
            0 <= i < plan.pieces.len() ==> (#[trigger] plan.pieces[i]).text.len() >= prefix.len()
                && plan.pieces[i].text.take(prefix.len() as int) == prefix,
        join(
            Seq::new(plan.pieces.len(), |i: int| plan.pieces[i].text.skip(prefix.len() as int)),
            "\n"@,
        ) == join(lines(text), "\n"@),
{
    let (n, p, counts, cuts) = lemma_plan_cuts(definition, prefix, text, plan);
    let pieces = Seq::new(
        plan.pieces.len(),
        |i: int| (plan.pieces[i].text, plan.pieces[i].tokens),
    );
    assert forall|i: int| 0 <= i < plan.pieces.len() implies (#[trigger] plan.pieces[i]).text.len()
        >= prefix.len() && plan.pieces[i].text.take(prefix.len() as int) == prefix by {
        let c = join(lines(text).subrange(cuts[i], cuts[i + 1]), "\n"@);
        assert(pieces[i].0 == prefix + c);
        assert((prefix + c).take(prefix.len() as int) =~= prefix);
    }
}

/// The pieces of a text, as [`EmbedModel::plan`] gives them. A text that, with its prefix, has
/// `n` tokens is one piece just where `n` is at most 512. It is then the prefix and the text.
/// Otherwise the text is cut at its lines, and where the prefix leaves room for lines, the
/// pieces without the prefix make up the lines of the text.
pub proof fn law_plan(m: &EmbedModel, text: &str, prefix: &str, r: (Vec<Piece>, bool)) -> (w: (
    int,
    int,
    Seq<int>,
    Seq<int>,
))
    requires
        call_ensures(EmbedModel::plan, (m, text, prefix), r),
    ensures
        ({
            let (n, p, counts, cuts) = w;
            &&& may_count(m.definition(), prefix@ + text@, n)
            &&& r.1 <==> n <= 512
            &&& r.1 ==> r.0@.len() == 1 && r.0@[0].text@ == prefix@ + text@ && r.0@[0].tokens == n
            &&& !r.1 ==> cut_at_lines(
                m.definition(),
                prefix@,
                text@,
                counted_texts(r.0@),
                p,
                counts,
                cuts,
            )
            &&& !r.1 && p + 2 < 512 ==> join(
                Seq::new(r.0@.len(), |i: int| r.0@[i].text@.skip(prefix@.len() as int)),
                "\n"@,
            ) == join(lines(text@), "\n"@)
        }),
{
    let plan = Plan { pieces: piece_models(r.0@), single: r.1 };
    let w = lemma_plan_cuts(m.definition(), prefix@, text@, plan);
    assert(piece_models(r.0@).len() == r.0@.len());
    assert(forall|i: int| 0 <= i < r.0@.len() ==> #[trigger] plan.pieces[i] == r.0@[i]@);
    assert(counted_texts(r.0@) =~= Seq::new(
        plan.pieces.len(),
        |i: int| (plan.pieces[i].text, plan.pieces[i].tokens),
    ));
    assert(Seq::new(r.0@.len(), |i: int| r.0@[i].text@.skip(prefix@.len() as int)) =~= Seq::new(
        plan.pieces.len(),
        |i: int| plan.pieces[i].text.skip(prefix@.len() as int),
    ));
    if r.1 {
        assert(plan.pieces[0] == r.0@[0]@);
    }
    w
}

/// The chunks of a text, as [`EmbedModel::split_text_chunks`] gives them: runs of the lines of
/// the text with line feeds between them, one behind the other, from the first line to the
/// last. With the prefix and the two special tokens, a chunk of more than one line is within
/// the budget, and with the next line it would not be. Where the prefix leaves no room there
/// are no chunks.
pub proof fn law_split_text_chunks(
    m: &EmbedModel,
    text: &str,
    prefix: &str,
    budget: usize,
    r: Vec<String>,
) -> (w: (int, Seq<int>, Seq<int>))
    requires
        call_ensures(EmbedModel::split_text_chunks, (m, text, prefix, budget), r),
    ensures
        ({
            let (p, counts, cuts) = w;
            let ls = lines(text@);
            &&& may_count(m.definition(), prefix@, p)
            &&& counts.len() == ls.len()
            &&& forall|i: int|
                0 <= i < ls.len() ==> may_count(m.definition(), #[trigger] ls[i], counts[i])
            &&& p + 2 >= budget ==> r@.len() == 0
            &&& p + 2 < budget ==> {
                &&& cuts.len() == r@.len() + 1
                &&& cuts[0] == 0
                &&& cuts[cuts.len() - 1] == ls.len()
                &&& forall|g: int|
                    0 <= g < r@.len() ==> {
                        &&& 0 <= #[trigger] cuts[g] < cuts[g + 1] <= ls.len()
                        &&& r@[g]@ == join(ls.subrange(cuts[g], cuts[g + 1]), "\n"@)
                        &&& cuts[g + 1] == cuts[g] + 1 || p + 2 + cost_between(
                            counts,
                            cuts[g],
                            cuts[g + 1],
                        ) <= budget
                        &&& cuts[g + 1] < ls.len() ==> p + 2 + cost_between(
                            counts,
                            cuts[g],
                            cuts[g + 1] + 1,
                        ) > budget
                    }
            }
        }),
{
    let w = lemma_split_cuts(m.definition(), text@, prefix@, budget as int, texts(r@));
    let (p, counts, cuts) = w;
    assert(texts(r@).len() == r@.len());
    assert(forall|g: int| 0 <= g < r@.len() ==> #[trigger] texts(r@)[g] == r@[g]@);
    if p + 2 < budget {
        assert forall|g: int| 0 <= g < r@.len() implies r@[g]@ == join(
            lines(text@).subrange(#[trigger] cuts[g], cuts[g + 1]),
            "\n"@,
        ) by {
            assert(texts(r@)[g] == r@[g]@);
        }
    }
    w
}

/// Is this the vector of a text, where inference on one text gives `h` of it, inference on a
/// batch `f` of each text, and averaging is `g`? A text that, with its prefix, has at most 512
/// tokens has the vector of the prefix and the text. A longer one is cut at its lines, and has
/// the average of the vectors of all pieces, each weighted by its number of tokens.
pub open spec fn embedded(
    definition: Seq<u8>,
    prefix: Seq<char>,
    text: Seq<char>,
    h: spec_fn(Seq<char>) -> Seq<u32>,
    f: spec_fn(Seq<char>) -> Seq<u32>,
    g: spec_fn(Seq<(Seq<u32>, usize)>) -> Seq<u32>,
    v: Seq<u32>,
) -> bool {
    exists|n: int| #[trigger]
        may_count(definition, prefix + text, n) && if n <= 512 {
            v == h(prefix + text)
        } else {
            exists|pieces: Seq<(Seq<char>, usize)>, p: int, counts: Seq<int>, cuts: Seq<int>|
                #[trigger]
                cut_at_lines(definition, prefix, text, pieces, p, counts, cuts) && v == g(
                    Seq::new(pieces.len(), |i: int| (f(pieces[i].0), pieces[i].1)),
                )
        }
}

/// The vector of a plan is that of the text.
proof fn lemma_embedded(
    definition: Seq<u8>,
    prefix: Seq<char>,
    text: Seq<char>,
    h: spec_fn(Seq<char>) -> Seq<u32>,
    f: spec_fn(Seq<char>) -> Seq<u32>,
    g: spec_fn(Seq<(Seq<u32>, usize)>) -> Seq<u32>,
    plan: Plan,
)
    requires
        may_plan(definition, prefix, text, plan),
    ensures
        embedded(
            definition,
            prefix,
            text,
            h,
            f,
            g,
            if plan.single {
                vector_of(h, g, plan)
            } else {
                vector_of(f, g, plan)
            },
        ),
{
    let (n, p, counts, cuts) = lemma_plan_cuts(definition, prefix, text, plan);
    if !plan.single {
        let pieces = Seq::new(
            plan.pieces.len(),
            |i: int| (plan.pieces[i].text, plan.pieces[i].tokens),
        );
        assert(cut_at_lines(definition, prefix, text, pieces, p, counts, cuts));
        assert(Seq::new(pieces.len(), |i: int| (f(pieces[i].0), pieces[i].1)) =~= weighted(
            Seq::new(plan.pieces.len(), |i: int| f(plan.pieces[i].text)),
            plan.pieces,
        ));
    }
}

/// The vector of a text with this plan.
proof fn lemma_vector_by<
    E,
    S: Fn(&String) -> Result<Vec<u32>, E>,
    B: Fn(&Vec<String>) -> Result<Vec<Vec<u32>>, E>,
    A: Fn(&Vec<(Vec<u32>, usize)>) -> Vec<u32>,
>(
    single: S,
    infer: B,
    average: A,
    h: spec_fn(Seq<char>) -> Seq<u32>,
    f: spec_fn(Seq<char>) -> Seq<u32>,
    g: spec_fn(Seq<(Seq<u32>, usize)>) -> Seq<u32>,
    plan: Plan,
    v: Vec<u32>,
)
    requires
        single_by::<E, S>(single, h),
        infer_by::<E, B>(infer, f),
        average_by(average, g),
        text_result::<E, S, B, A>(single, infer, average, plan, Ok::<Vec<u32>, E>(v)),
    ensures
        plan.single ==> v@ == vector_of(h, g, plan),
        !plan.single ==> v@ == vector_of(f, g, plan),
{
    if plan.single {
        let s = choose|s: String| #[trigger]
            call_ensures(single, (&s,), Ok::<Vec<u32>, E>(v)) && s@ == plan.pieces[0].text;
        assert(call_ensures(single, (&s,), Ok::<Vec<u32>, E>(v)));
    } else {
        let embs = choose|embs: Seq<Seq<u32>>| #[trigger]
            inferred::<E, B>(infer, plan.pieces, embs) && averaged(average, plan.pieces, embs, v);
        lemma_inferred_by::<E, B>(infer, f, plan.pieces, embs);
    }
}

/// The text that [`EmbedModel::embed_text`] gives a vector of is the prefix and the text:
/// whole, or cut at its lines and averaged over all pieces.
pub proof fn law_embed_text<
    E,
    S: Fn(&String) -> Result<Vec<u32>, E>,
    B: Fn(&Vec<String>) -> Result<Vec<Vec<u32>>, E>,
    A: Fn(&Vec<(Vec<u32>, usize)>) -> Vec<u32>,
>(
    m: &EmbedModel,
    text: &str,
    prefix: &str,
    single: S,
    infer: B,
    average: A,
    h: spec_fn(Seq<char>) -> Seq<u32>,
    f: spec_fn(Seq<char>) -> Seq<u32>,
    g: spec_fn(Seq<(Seq<u32>, usize)>) -> Seq<u32>,
    v: Vec<u32>,
)
    requires
        single_by::<E, S>(single, h),
        infer_by::<E, B>(infer, f),
        average_by(average, g),
        call_ensures(
            EmbedModel::embed_text::<E, S, B, A>,
            (m, text, prefix, single, infer, average),
            Ok::<Vec<u32>, E>(v),
        ),
    ensures
        embedded(m.definition(), prefix@, text@, h, f, g, v@),
{
    let plan = choose|plan: Plan| #[trigger]
        may_plan(m.definition(), prefix@, text@, plan) && text_result::<E, S, B, A>(
            single,
            infer,
            average,
            plan,
            Ok::<Vec<u32>, E>(v),
        );
    lemma_vector_by::<E, S, B, A>(single, infer, average, h, f, g, plan, v);
    lemma_embedded(m.definition(), prefix@, text@, h, f, g, plan);
}

/// A document is embedded with `search_document: ` before it.
pub proof fn law_embed_document<
    E,
    S: Fn(&String) -> Result<Vec<u32>, E>,
    B: Fn(&Vec<String>) -> Result<Vec<Vec<u32>>, E>,
    A: Fn(&Vec<(Vec<u32>, usize)>) -> Vec<u32>,
>(
    m: &EmbedModel,
    content: &str,
    single: S,
    infer: B,
    average: A,
    h: spec_fn(Seq<char>) -> Seq<u32>,
    f: spec_fn(Seq<char>) -> Seq<u32>,
    g: spec_fn(Seq<(Seq<u32>, usize)>) -> Seq<u32>,
    v: Vec<u32>,
)
    requires
        single_by::<E, S>(single, h),
        infer_by::<E, B>(infer, f),
        average_by(average, g),
        call_ensures(
            EmbedModel::embed_document::<E, S, B, A>,
            (m, content, single, infer, average),
            Ok::<Vec<u32>, E>(v),
        ),
    ensures
        embedded(m.definition(), "search_document: "@, content@, h, f, g, v@),
{
    let plan = choose|plan: Plan| #[trigger]
        may_plan(m.definition(), PREFIX_DOCUMENT@, content@, plan) && text_result::<E, S, B, A>(
            single,
            infer,
            average,
            plan,
            Ok::<Vec<u32>, E>(v),
        );
    lemma_vector_by::<E, S, B, A>(single, infer, average, h, f, g, plan, v);
    lemma_embedded(m.definition(), PREFIX_DOCUMENT@, content@, h, f, g, plan);
}

/// A query is embedded with `search_query: ` before it.
pub proof fn law_embed_query<
    E,
    S: Fn(&String) -> Result<Vec<u32>, E>,
    B: Fn(&Vec<String>) -> Result<Vec<Vec<u32>>, E>,
    A: Fn(&Vec<(Vec<u32>, usize)>) -> Vec<u32>,
>(
    m: &EmbedModel,
    query: &str,
    single: S,
    infer: B,
    average: A,
    h: spec_fn(Seq<char>) -> Seq<u32>,
    f: spec_fn(Seq<char>) -> Seq<u32>,
    g: spec_fn(Seq<(Seq<u32>, usize)>) -> Seq<u32>,
    v: Vec<u32>,
)
    requires
        single_by::<E, S>(single, h),
        infer_by::<E, B>(infer, f),
        average_by(average, g),
        call_ensures(
            EmbedModel::embed_query::<E, S, B, A>,
            (m, query, single, infer, average),
            Ok::<Vec<u32>, E>(v),
        ),
    ensures
        embedded(m.definition(), "search_query: "@, query@, h, f, g, v@),
{
    let plan = choose|plan: Plan| #[trigger]
        may_plan(m.definition(), PREFIX_QUERY@, query@, plan) && text_result::<E, S, B, A>(
            single,
            infer,
            average,
            plan,
            Ok::<Vec<u32>, E>(v),
        );
    lemma_vector_by::<E, S, B, A>(single, infer, average, h, f, g, plan, v);
    lemma_embedded(m.definition(), PREFIX_QUERY@, query@, h, f, g, plan);
}

/// Documents that are embedded together have a vector each, in their order, and it is that of
/// the document with `search_document: ` before it.
pub proof fn law_embed_documents<
    E,
    B: Fn(&Vec<String>) -> Result<Vec<Vec<u32>>, E>,
    A: Fn(&Vec<(Vec<u32>, usize)>) -> Vec<u32>,
>(
    m: &EmbedModel,
    docs: &[&str],
    infer: B,
    average: A,
    f: spec_fn(Seq<char>) -> Seq<u32>,
    g: spec_fn(Seq<(Seq<u32>, usize)>) -> Seq<u32>,
    vs: Vec<Vec<u32>>,
)
    requires
        infer_by::<E, B>(infer, f),
        average_by(average, g),
        call_ensures(
            EmbedModel::embed_documents::<E, B, A>,
            (m, docs, infer, average),
            Ok::<Vec<Vec<u32>>, E>(vs),
        ),
    ensures
        vs@.len() == docs@.len(),
        forall|d: int|
            0 <= d < docs@.len() ==> embedded(
                m.definition(),
                "search_document: "@,
                docs@[d]@,
                f,
                f,
                g,
                (#[trigger] vs@[d])@,
            ),
{
    let plans = choose|plans: Seq<Plan>| #[trigger]
        may_plan_all(m.definition(), docs@, plans) && documents_result::<E, B, A>(
            infer,
            average,
            plans,
            Ok::<Vec<Vec<u32>>, E>(vs),
        );
    let lists = piece_lists(plans);
    let all = flattened(lists);
    let embs = choose|embs: Seq<Seq<u32>>| #[trigger]
        inferred::<E, B>(infer, all, embs) && forall|d: int|
            0 <= d < plans.len() ==> document_vector(
                average,
                plans[d],
                vectors_of(embs, plans, d),
                #[trigger] vs@[d],
            );
    lemma_inferred_by::<E, B>(infer, f, all, embs);
    assert forall|d: int| 0 <= d < docs@.len() implies embedded(
        m.definition(),
        "search_document: "@,
        docs@[d]@,
        f,
        f,
        g,
        (#[trigger] vs@[d])@,
    ) by {
        let plan = plans[d];
        assert(may_plan(m.definition(), PREFIX_DOCUMENT@, docs@[d]@, plan));
        lemma_document_pieces(plans, d);
        let from = flat_place(lists, d, 0);
        let own = vectors_of(embs, plans, d);
        assert(own.len() == plan.pieces.len());
        assert forall|i: int| 0 <= i < own.len() implies own[i] == f(plan.pieces[i].text) by {
            assert(all.subrange(from, from + plan.pieces.len())[i] == plan.pieces[i]);
        }
        assert(own =~= Seq::new(plan.pieces.len(), |i: int| f(plan.pieces[i].text)));
        assert(document_vector(average, plan, own, vs@[d]));
        if plan.single {
            assert(plan.pieces.len() == 1);
        }
        assert(vs@[d]@ == vector_of(f, g, plan));
        lemma_embedded(m.definition(), PREFIX_DOCUMENT@, docs@[d]@, f, f, g, plan);
    }
}

/// The number of tokens of a text is the length of an encoding by the tokenizer of the model
/// that neither cuts texts nor fills them up, with the special tokens. A text that cannot be
/// encoded, or that is too long to be searched, has none.
pub proof fn law_token_count(m: &EmbedModel, text: &str, r: usize) -> (answer: Option<TokenRows>)
    requires
        call_ensures(EmbedModel::token_count, (m, text), r),
    ensures
        ({
            let counting = TokenizerModel {
                definition: m.definition(),
                truncation: Truncation::Off,
                padding: Padding::Off,
            };
            let long = searching_definition(m.definition()) && encode_utf8(text@).len()
                > 2_147_483_646;
            &&& !long ==> encodings(counting, text@).contains(answer)
            &&& long ==> answer is None
            &&& answer is Some ==> r == answer->0.ids.len()
            &&& answer is None ==> r == 0
        }),
{
    choose|answer: Option<TokenRows>| #[trigger]
        answers(counting_tokenizer(m.definition()), text@).contains(answer) && r == (match answer {
            Some(rows) => rows.ids.len() as int,
            None => 0,
        })
}

/// A text is encoded for inference by the tokenizer of the model that cuts texts at 512 tokens
/// and does not fill them up. A failure is a failure of that tokenizer, unless the text is too
/// long to be searched.
pub proof fn law_encode_single(m: &EmbedModel, text: &str, r: Result<Encoded, ModelError>)
    requires
        call_ensures(EmbedModel::encode_single, (m, text), r),
    ensures
        ({
            let inference = TokenizerModel {
                definition: m.definition(),
                truncation: Truncation::At(512),
                padding: Padding::Off,
            };
            let long = searching_definition(m.definition()) && encode_utf8(text@).len()
                > 2_147_483_646;
            &&& long ==> r is Err
            &&& r is Ok ==> encodings(inference, text@).contains(Some(r->Ok_0@))
            &&& r is Err && !long ==> encodings(inference, text@).contains(None)
            &&& r is Err ==> r->Err_0 is Tokenization
        }),
{
}

/// A batch of texts is encoded text by text, each by the tokenizer of the model that cuts texts
/// at 512 tokens. The rows are filled up with zeros to the width of the longest.
pub proof fn law_encode_batch(m: &EmbedModel, batch: &Vec<String>, p: PaddedBatch, b: int, i: int)
    requires
        call_ensures(EmbedModel::encode_batch, (m, batch), Ok::<PaddedBatch, ModelError>(p)),
    ensures
        p.encodings@.len() == batch@.len(),
        is_width(p.encodings@, p.width as int),
        0 <= b < batch@.len() ==> encodings(
            (TokenizerModel {
                definition: m.definition(),
                truncation: Truncation::At(512),
                padding: Padding::Off,
            }),
            batch@[b]@,
        ).contains(Some(p.encodings@[b]@)),
        0 <= b < batch@.len() && 0 <= i < p.width ==> filled_up(p.encodings@, p, b, i),
{
    lemma_filled_up(p.encodings@, p, b, i);
    if 0 <= b < batch@.len() {
        assert(answers(inference_tokenizer(m.definition()), batch@[b]@).contains(
            Some(p.encodings@[b]@),
        ));
    }
}

/// Every item is in a batch.
pub proof fn law_every_item_is_in_a_batch(
    items: &Vec<(usize, String, usize)>,
    r: Vec<Vec<usize>>,
    at: int,
) -> (w: (int, int))
    requires
        call_ensures(EmbedModel::make_batches, (items,), r),
        0 <= at < items@.len(),
    ensures
        0 <= w.0 < r@.len(),
        0 <= w.1 < r@[w.0]@.len(),
        r@[w.0]@[w.1] == at,
{
    lemma_batch_of(Seq::new(items@.len(), |i: int| items@[i].2 as u64), r@, at)
}

/// No item is in two places of the batches, and an item at an earlier place does not have more
/// tokens than one at a later place.
pub proof fn law_items_are_batched_by_length(
    items: &Vec<(usize, String, usize)>,
    r: Vec<Vec<usize>>,
    b: int,
    k: int,
    c: int,
    l: int,
)
    requires
        call_ensures(EmbedModel::make_batches, (items,), r),
        0 <= b <= c < r@.len(),
        0 <= k < r@[b]@.len(),
        0 <= l < r@[c]@.len(),
        b < c || k < l,
    ensures
        r@[b]@[k] < items@.len(),
        r@[c]@[l] < items@.len(),
        r@[b]@[k] != r@[c]@[l],
        items@[r@[b]@[k] as int].2 <= items@[r@[c]@[l] as int].2,
{
    lemma_batch_order(Seq::new(items@.len(), |i: int| items@[i].2 as u64), r@, b, k, c, l);
}

/// A batch holds 1 to 32 items. The number of its items times the most tokens of one is at most
/// 16384, unless it is a single item. The first item of the next batch would not have fitted.
pub proof fn law_make_batches_limits(
    items: &Vec<(usize, String, usize)>,
    r: Vec<Vec<usize>>,
    b: int,
)
    requires
        call_ensures(EmbedModel::make_batches, (items,), r),
        0 <= b < r@.len(),
    ensures
        1 <= r@[b]@.len() <= 32,
        forall|k: int|
            0 <= k < r@[b]@.len() ==> (#[trigger] r@[b]@[k]) < items@.len() && (r@[b]@.len() == 1
                || r@[b]@.len() * items@[r@[b]@[k] as int].2 <= 16384),
        b + 1 < r@.len() ==> r@[b + 1]@.len() > 0 && r@[b + 1]@[0] < items@.len() && (r@[b]@.len()
            + 1 > 32 || (r@[b]@.len() + 1) * items@[r@[b + 1]@[0] as int].2 > 16384),
{
    let tokens = Seq::new(items@.len(), |i: int| items@[i].2 as u64);
    let groups = batch_places(r@);
    lemma_batch_limits(tokens, r@, b);
    lemma_group_in_range(tokens, groups, b);
    assert forall|k: int| 0 <= k < r@[b]@.len() implies (#[trigger] r@[b]@[k]) < items@.len() && (
    r@[b]@.len() == 1 || r@[b]@.len() * items@[r@[b]@[k] as int].2 <= 16384) by {
        assert(groups[b][k] == r@[b]@[k]);
        assert(tokens[r@[b]@[k] as int] == items@[r@[b]@[k] as int].2);
    }
    if b + 1 < r@.len() {
        lemma_group_in_range(tokens, groups, b + 1);
        assert(groups[b + 1].len() == r@[b + 1]@.len());
        assert(groups[b + 1][0] == r@[b + 1]@[0]);
        assert(tokens[r@[b + 1]@[0] as int] == items@[r@[b + 1]@[0] as int].2);
    }
}

/// Where inference gives `f` of each text, every piece gets the vector of its own text.
pub proof fn law_run_batches<E, B: Fn(&Vec<String>) -> Result<Vec<Vec<u32>>, E>>(
    pieces: &Vec<Piece>,
    infer: &B,
    f: spec_fn(Seq<char>) -> Seq<u32>,
    embs: Vec<Vec<u32>>,
)
    requires
        infer_by::<E, B>(*infer, f),
        call_ensures(run_batches::<E, B>, (pieces, infer), Ok::<Vec<Vec<u32>>, E>(embs)),
    ensures
        embs@.len() == pieces@.len(),
        forall|i: int| 0 <= i < pieces@.len() ==> (#[trigger] embs@[i])@ == f(pieces@[i].text@),
{
    let models = piece_models(pieces@);
    assert(models.len() == pieces@.len());
    assert(vectors(embs@).len() == embs@.len());
    lemma_inferred_by::<E, B>(*infer, f, models, vectors(embs@));
    assert forall|i: int| 0 <= i < pieces@.len() implies (#[trigger] embs@[i])@ == f(
        pieces@[i].text@,
    ) by {
        assert(vectors(embs@)[i] == embs@[i]@);
        assert(models[i] == pieces@[i]@);
    }
}

/// Does inference fail with this error on a batch, each text of which is the text of a piece?
pub open spec fn failed_on_pieces<E, B: Fn(&Vec<String>) -> Result<Vec<Vec<u32>>, E>>(
    infer: B,
    pieces: Seq<Seq<char>>,
    e: E,
) -> bool {
    exists|batch: Vec<String>| #[trigger]
        call_ensures(infer, (&batch,), Err::<Vec<Vec<u32>>, E>(e)) && batch@.len() > 0
            && forall|k: int|
            0 <= k < batch@.len() ==> pieces.contains((#[trigger] batch@[k])@)
}

/// Inference that fails does so on some of the pieces.
proof fn lemma_failed<E, B: Fn(&Vec<String>) -> Result<Vec<Vec<u32>>, E>>(
    infer: B,
    pieces: Seq<PieceModel>,
    e: E,
)
    requires
        inference_fails::<E, B>(infer, pieces, e),
    ensures
        failed_on_pieces::<E, B>(infer, Seq::new(pieces.len(), |i: int| pieces[i].text), e),
{
    let all = Seq::new(pieces.len(), |i: int| pieces[i].text);
    let tokens = piece_tokens(pieces);
    let (batches, b, batch) = choose|batches: Seq<Seq<int>>, b: int, batch: Vec<String>|
        {
            &&& #[trigger] batched(piece_tokens(pieces), batches)
            &&& 0 <= b < batches.len()
            &&& texts(batch@) == batch_texts(pieces, #[trigger] batches[b])
            &&& #[trigger] call_ensures(infer, (&batch,), Err::<Vec<Vec<u32>>, E>(e))
            &&& forall|c: int| 0 <= c < b ==> batch_answered::<E, B>(
                infer,
                pieces,
                #[trigger] batches[c],
            )
        };
    lemma_group_in_range(tokens, batches, b);
    law_batches_within_limits(tokens, batches, b);
    assert(texts(batch@).len() == batch@.len());
    assert forall|k: int| 0 <= k < batch@.len() implies all.contains((#[trigger] batch@[k])@) by {
        assert(texts(batch@)[k] == batch@[k]@);
        let at = batches[b][k];
        assert(all[at] == batch@[k]@);
    }
}

/// Embedding a text fails only where inference fails, with the same error: on the prefix and
/// the text as a whole, or on a batch of texts that start with the prefix.
pub proof fn law_embed_text_fails<
    E,
    S: Fn(&String) -> Result<Vec<u32>, E>,
    B: Fn(&Vec<String>) -> Result<Vec<Vec<u32>>, E>,
    A: Fn(&Vec<(Vec<u32>, usize)>) -> Vec<u32>,
>(m: &EmbedModel, text: &str, prefix: &str, single: S, infer: B, average: A, e: E)
    requires
        call_ensures(
            EmbedModel::embed_text::<E, S, B, A>,
            (m, text, prefix, single, infer, average),
            Err::<Vec<u32>, E>(e),
        ),
    ensures
        (exists|s: String| #[trigger]
            call_ensures(single, (&s,), Err::<Vec<u32>, E>(e)) && s@ == prefix@ + text@) || (exists|
            batch: Vec<String>,
        | #[trigger]
            call_ensures(infer, (&batch,), Err::<Vec<Vec<u32>>, E>(e)) && batch@.len() > 0
                && forall|k: int|
                0 <= k < batch@.len() ==> (#[trigger] batch@[k])@.len() >= prefix@.len()
                    && batch@[k]@.take(prefix@.len() as int) == prefix@),
{
    let plan = choose|plan: Plan| #[trigger]
        may_plan(m.definition(), prefix@, text@, plan) && text_result::<E, S, B, A>(
            single,
            infer,
            average,
            plan,
            Err::<Vec<u32>, E>(e),
        );
    let (n, p, counts, cuts) = lemma_plan_cuts(m.definition(), prefix@, text@, plan);
    if plan.single {
        let s = choose|s: String| #[trigger]
            call_ensures(single, (&s,), Err::<Vec<u32>, E>(e)) && s@ == plan.pieces[0].text;
        assert(call_ensures(single, (&s,), Err::<Vec<u32>, E>(e)));
    } else {
        lemma_failed::<E, B>(infer, plan.pieces, e);
        let all = Seq::new(plan.pieces.len(), |i: int| plan.pieces[i].text);
        let pieces = Seq::new(
            plan.pieces.len(),
            |i: int| (plan.pieces[i].text, plan.pieces[i].tokens),
        );
        let batch = choose|batch: Vec<String>| #[trigger]
            call_ensures(infer, (&batch,), Err::<Vec<Vec<u32>>, E>(e)) && batch@.len() > 0
                && forall|k: int|
                0 <= k < batch@.len() ==> all.contains((#[trigger] batch@[k])@);
        assert(call_ensures(infer, (&batch,), Err::<Vec<Vec<u32>>, E>(e)));
        assert forall|k: int| 0 <= k < batch@.len() implies (#[trigger] batch@[k])@.len()
            >= prefix@.len() && batch@[k]@.take(prefix@.len() as int) == prefix@ by {
            assert(all.contains(batch@[k]@));
            let i = choose|i: int| 0 <= i < all.len() && all[i] == batch@[k]@;
            assert(pieces[i].0 == batch@[k]@);
            let c = join(lines(text@).subrange(cuts[i], cuts[i + 1]), "\n"@);
            assert(pieces[i].0 == prefix@ + c);
            assert((prefix@ + c).take(prefix@.len() as int) =~= prefix@);
        }
    }
}

/// Embedding documents fails only where inference fails, with the same error.
pub proof fn law_embed_documents_fails<
    E,
    B: Fn(&Vec<String>) -> Result<Vec<Vec<u32>>, E>,
    A: Fn(&Vec<(Vec<u32>, usize)>) -> Vec<u32>,
>(m: &EmbedModel, docs: &[&str], infer: B, average: A, e: E)
    requires
        call_ensures(
            EmbedModel::embed_documents::<E, B, A>,
            (m, docs, infer, average),
            Err::<Vec<Vec<u32>>, E>(e),
        ),
    ensures
        exists|batch: Vec<String>| #[trigger]
            call_ensures(infer, (&batch,), Err::<Vec<Vec<u32>>, E>(e)) && batch@.len() > 0,
{
    let plans = choose|plans: Seq<Plan>| #[trigger]
        may_plan_all(m.definition(), docs@, plans) && documents_result::<E, B, A>(
            infer,
            average,
            plans,
            Err::<Vec<Vec<u32>>, E>(e),
        );
    lemma_failed::<E, B>(infer, flattened(piece_lists(plans)), e);
}

/// The model files are the model itself, which stands in a directory of its own in the model
/// repository, and three files about its tokenizer.
pub proof fn law_model_files(r: Vec<(&'static str, &'static str)>)
    requires
        call_ensures(model_files, (), r),
    ensures
        r@.len() == 4,
        r@[0].0@ == "model.onnx"@ && r@[0].1@ == "onnx/model.onnx"@,
        r@[1].0@ == "tokenizer.json"@,
        r@[2].0@ == "special_tokens_map.json"@,
        r@[3].0@ == "tokenizer_config.json"@,
        forall|i: int| 1 <= i < 4 ==> (#[trigger] r@[i]).1@ == r@[i].0@,
{
    assert forall|i: int| 0 <= i < 4 implies (#[trigger] r@[i]).0@ == model_file_list()[i].0
        && r@[i].1@ == model_file_list()[i].1 by {}
    assert(r@[0].0@ == model_file_list()[0].0);
    assert(r@[1].0@ == model_file_list()[1].0);
    assert(r@[2].0@ == model_file_list()[2].0);
    assert(r@[3].0@ == model_file_list()[3].0);
}

/// A model file comes from the model repository on Hugging Face.
pub proof fn law_download_url(repo_path: &str, r: String)
    requires
        call_ensures(download_url, (repo_path,), r),
    ensures
        r@ == "https://huggingface.co/nomic-ai/nomic-embed-text-v1.5/resolve/main/"@ + repo_path@,
{
    reveal_strlit("https://huggingface.co/");
    reveal_strlit("nomic-ai/nomic-embed-text-v1.5");
    reveal_strlit("/resolve/main/");
    reveal_strlit("https://huggingface.co/nomic-ai/nomic-embed-text-v1.5/resolve/main/");
    let head = "https://huggingface.co/"@ + MODEL_ID@ + "/resolve/main/"@;
    assert(head =~= "https://huggingface.co/nomic-ai/nomic-embed-text-v1.5/resolve/main/"@);
}

/// Which model files are not there.
proof fn lemma_absent(present: Seq<bool>) -> (picks: Seq<int>)
    ensures
        picks.len() == absent_files(present).len(),
        forall|i: int, j: int|
            0 <= i < j < picks.len() ==> #[trigger] picks[i] < #[trigger] picks[j],
        forall|i: int|
            0 <= i < picks.len() ==> 0 <= #[trigger] picks[i] < present.len() && absent_files(
                present,
            )[i] == model_file_list()[picks[i]],
        forall|k: int| 0 <= k < present.len() ==> (#[trigger] picks.contains(k) <==> !present[k]),
    decreases present.len(),
{
    if present.len() == 0 {
        seq![]
    } else {
        let front = present.drop_last();
        let n = present.len() - 1;
        let before = lemma_absent(front);
        let picks = if present[n] {
            before
        } else {
            before.push(n)
        };
        assert forall|k: int| 0 <= k < present.len() implies (#[trigger] picks.contains(k)
            <==> !present[k]) by {
            if k == n {
                if !present[n] {
                    assert(picks[before.len() as int] == k);
                }
            } else {
                assert(before.contains(k) <==> !front[k]);
                if before.contains(k) {
                    let i = choose|i: int| 0 <= i < before.len() && before[i] == k;
                    assert(picks[i] == k);
                }
                if picks.contains(k) {
                    let i = choose|i: int| 0 <= i < picks.len() && picks[i] == k;
                    assert(before[i] == k);
                }
            }
        }
        assert forall|i: int| 0 <= i < picks.len() implies 0 <= #[trigger] picks[i] < present.len()
            && absent_files(present)[i] == model_file_list()[picks[i]] by {
            if i < before.len() {
                assert(picks[i] == before[i]);
                assert(absent_files(present)[i] == absent_files(front)[i]);
            }
        }
        picks
    }
}

/// To be downloaded are the model files that are not there, all of them and in their order.
pub proof fn law_files_to_download(
    present: &Vec<bool>,
    files: Vec<(&'static str, &'static str)>,
    r: Vec<(&'static str, &'static str)>,
) -> (picks: Seq<int>)
    requires
        present@.len() == 4,
        call_ensures(model_files, (), files),
        call_ensures(files_to_download, (present,), r),
    ensures
        picks.len() == r@.len(),
        forall|i: int, j: int|
            0 <= i < j < picks.len() ==> #[trigger] picks[i] < #[trigger] picks[j],
        forall|i: int|
            0 <= i < picks.len() ==> 0 <= #[trigger] picks[i] < 4 && r@[i].0@
                == files@[picks[i]].0@ && r@[i].1@ == files@[picks[i]].1@,
        forall|k: int| 0 <= k < 4 ==> (#[trigger] picks.contains(k) <==> !present@[k]),
{
    let picks = lemma_absent(present@);
    assert(file_names(r@).len() == r@.len());
    assert forall|i: int| 0 <= i < picks.len() implies 0 <= #[trigger] picks[i] < 4 && r@[i].0@
        == files@[picks[i]].0@ && r@[i].1@ == files@[picks[i]].1@ by {
        assert(file_names(r@)[i] == (r@[i].0@, r@[i].1@));
        assert(files@[picks[i]].0@ == model_file_list()[picks[i]].0);
    }
    picks
}

/// A model is loaded just where its definition is JSON, is made of parts that are admitted, with
/// no member twice, defines a tokenizer, and adds at most 512 special tokens to a text. It then
/// has that definition. Too many special tokens are told.
pub proof fn law_load_from(definition: &[u8], r: Result<EmbedModel, ModelError>)
    requires
        call_ensures(EmbedModel::load_from, (definition,), r),
    ensures
        r is Ok <==> {
            &&& json_text(definition@) is Some
            &&& members_once(definition@, json_text(definition@)->0)
            &&& sound_parts(json_text(definition@)->0)
            &&& defines_tokenizer(definition@)
            &&& added_tokens(definition@) <= 512
        },
        r is Ok ==> r->Ok_0.definition() == definition@,
        r is Err && r->Err_0 is Truncation ==> r->Err_0->Truncation_0 == added_tokens(definition@)
            && added_tokens(definition@) > 512,
        json_text(definition@) is None ==> r->Err_0 is Tokenizer,
        json_text(definition@) is Some && !(members_once(definition@, json_text(definition@)->0)
            && sound_parts(json_text(definition@)->0)) ==> r->Err_0 is Unsupported,
        r is Err && r->Err_0 is Unsupported ==> json_text(definition@) is Some && !(members_once(
            definition@,
            json_text(definition@)->0,
        ) && sound_parts(json_text(definition@)->0)),
{
}

/// A fresh index is made for the model that embeds, with its number of dimensions, and that
/// model is the one that is downloaded.
pub proof fn law_index_is_for_the_model(index: EmbedIndex, repo_path: &str, url: String)
    requires
        call_ensures(empty_index, (), index),
        call_ensures(download_url, (repo_path,), url),
    ensures
        index.model@ == MODEL_NAME@,
        index.dims == MODEL_DIMS == 768,
        url@ == "https://huggingface.co/nomic-ai/"@ + index.model@ + "/resolve/main/"@ + repo_path@,
        CHUNK_THRESHOLD <= MAX_SEQ_LENGTH,
{
    law_empty_index(index);
    law_download_url(repo_path, url);
    reveal_strlit("nomic-embed-text-v1.5");
    reveal_strlit("/resolve/main/");
    reveal_strlit("https://huggingface.co/nomic-ai/");
    reveal_strlit("https://huggingface.co/nomic-ai/nomic-embed-text-v1.5/resolve/main/");
    let head = "https://huggingface.co/nomic-ai/"@ + index.model@ + "/resolve/main/"@;
    assert(head =~= "https://huggingface.co/nomic-ai/nomic-embed-text-v1.5/resolve/main/"@);
}

/// Inference on pieces fails only where inference on a batch fails, each text of which is the
/// text of a piece, and with the same error.
pub proof fn law_run_batches_fails<E, B: Fn(&Vec<String>) -> Result<Vec<Vec<u32>>, E>>(
    pieces: &Vec<Piece>,
    infer: &B,
    e: E,
)
    requires
        call_ensures(run_batches::<E, B>, (pieces, infer), Err::<Vec<Vec<u32>>, E>(e)),
    ensures
        failed_on_pieces::<E, B>(*infer, Seq::new(pieces@.len(), |i: int| pieces@[i].text@), e),
{
    let models = piece_models(pieces@);
    lemma_failed::<E, B>(*infer, models, e);
    assert(Seq::new(models.len(), |i: int| models[i].text) =~= Seq::new(
        pieces@.len(),
        |i: int| pieces@[i].text@,
    ));
}

/// Encoding a batch fails only where one of its texts cannot be encoded.
pub proof fn law_encode_batch_fails(m: &EmbedModel, batch: &Vec<String>, e: ModelError) -> (i: int)
    requires
        call_ensures(EmbedModel::encode_batch, (m, batch), Err::<PaddedBatch, ModelError>(e)),
    ensures
        e is Tokenization,
        0 <= i < batch@.len(),
        (searching_definition(m.definition()) && encode_utf8(batch@[i]@).len() > 2_147_483_646)
            || encodings(
            (TokenizerModel {
                definition: m.definition(),
                truncation: Truncation::At(512),
                padding: Padding::Off,
            }),
            batch@[i]@,
        ).contains(None),
{
    choose|i: int|
        0 <= i < batch@.len() && answers(
            inference_tokenizer(m.definition()),
            (#[trigger] batch@[i])@,
        ).contains(None)
}

/// All model files are there just where nothing is to be downloaded.
pub proof fn law_model_ready(
    present: &Vec<bool>,
    r: bool,
    absent: Vec<(&'static str, &'static str)>,
)
    requires
        present@.len() == 4,
        call_ensures(model_ready, (present,), r),
        call_ensures(files_to_download, (present,), absent),
    ensures
        r <==> absent@.len() == 0,
{
    law_ready_needs_no_download(present@);
    assert(file_names(absent@).len() == absent@.len());
}

} // verus!
