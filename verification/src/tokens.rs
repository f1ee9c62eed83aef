//! Tokenizing: from text to the rows of numbers that the model takes.

use crate::definition::{
    certain_definition, check_definition, json_text, parse_json, searching_definition,
    sound_definition,
};
use serde_json::Value;
use tokenizers::{Tokenizer, TruncationParams};
use vstd::prelude::*;
use vstd::utf8::encode_utf8;

verus! {

// ---------------------------------------------------------------------------
// The tokenizer
// ---------------------------------------------------------------------------

/// How a tokenizer cuts long texts.
pub enum Truncation {
    /// As its definition says.
    AsDefined,
    /// Not at all.
    Off,
    /// At a number of tokens, from the right, by the longest-first strategy without stride.
    At(nat),
}

/// How a tokenizer fills up short texts.
pub enum Padding {
    /// As its definition says.
    AsDefined,
    /// Not at all.
    Off,
}

/// What a tokenizer is made from and how it is set.
pub struct TokenizerModel {
    pub definition: Seq<u8>,
    pub truncation: Truncation,
    pub padding: Padding,
}

/// What a text is encoded as: for each token its number, its attention mask and its type.
pub struct Encoded {
    pub ids: Vec<u32>,
    pub mask: Vec<u32>,
    pub type_ids: Vec<u32>,
}

/// The contents of an [`Encoded`].
pub struct TokenRows {
    pub ids: Seq<u32>,
    pub mask: Seq<u32>,
    pub type_ids: Seq<u32>,
}

impl View for Encoded {
    type V = TokenRows;

    open spec fn view(&self) -> TokenRows {
        TokenRows { ids: self.ids@, mask: self.mask@, type_ids: self.type_ids@ }
    }
}

/// The tokenizer of the `tokenizers` crate.
#[verifier::external_type_specification]
#[verifier::external_body]
pub struct ExTokenizer(tokenizers::Tokenizer);

/// What the tokenizer is made from and how it is set.
pub uninterp spec fn tokenizer_model(t: tokenizers::Tokenizer) -> TokenizerModel;

/// Do the bytes define a tokenizer?
pub uninterp spec fn defines_tokenizer(definition: Seq<u8>) -> bool;

/// The number of special tokens that a tokenizer adds to a text.
pub uninterp spec fn added_tokens(definition: Seq<u8>) -> nat;

/// What a tokenizer may answer for a text, with the special tokens: an encoding, or `None`
/// for a failure. A definition can ask for random choices, so there may be several answers.
pub uninterp spec fn encodings(m: TokenizerModel, text: Seq<char>) -> Set<Option<TokenRows>>;

/// Can texts be encoded? The parts of the definition are admitted, and where texts are cut
/// there is room for the special tokens.
pub open spec fn encodes(m: TokenizerModel) -> bool {
    &&& sound_definition(m.definition)
    &&& match m.truncation {
        Truncation::AsDefined => false,
        Truncation::Off => true,
        Truncation::At(n) => added_tokens(m.definition) <= n,
    }
}

/// The most bytes that a text may have which is searched by regular expression. The places in
/// it are numbers of 32 bits with a sign there, and a blank may be put before the text.
pub const MAX_SEARCHED_BYTES: usize = 2_147_483_646;

/// Is the text not too long for the definition?
pub open spec fn manageable(definition: Seq<u8>, text: Seq<char>) -> bool {
    searching_definition(definition) ==> encode_utf8(text).len() <= MAX_SEARCHED_BYTES
}

/// Do the tokenizers that are made from the definition have one answer for each text?
pub open spec fn answers_uniquely(definition: Seq<u8>) -> bool {
    forall|m: TokenizerModel, text: Seq<char>|
        #![trigger encodings(m, text)]
        m.definition == definition && encodes(m) && manageable(definition, text)
            ==> exists|answer: Option<TokenRows>| encodings(m, text) == set![answer]
}

/// `tokenizers::Tokenizer::from_bytes` on a definition in which no member stands twice and
/// whose parts are admitted. Whether that succeeds depends on the bytes alone; the text of the
/// error is not stated. Where nothing in the definition is left to chance, what the tokenizer
/// answers for a text depends on the definition, on how it is set and on the text alone. On
/// other definitions the call may panic: it fails to unwrap a precompiled normalizer that
/// cannot be read, and it copies the outcome of a merge by byte pairs into a buffer of the
/// length of the longest token.
#[verifier::external_body]
fn load_tokenizer(definition: &[u8]) -> (r: Result<Tokenizer, String>)
    requires
        sound_definition(definition@),
    ensures
        match r {
            Ok(t) => {
                &&& defines_tokenizer(definition@)
                &&& tokenizer_model(t) == (TokenizerModel {
                    definition: definition@,
                    truncation: Truncation::AsDefined,
                    padding: Padding::AsDefined,
                })
                &&& certain_definition(definition@) ==> answers_uniquely(
                    tokenizer_model(t).definition,
                )
            },
            Err(_) => !defines_tokenizer(definition@),
        },
{
    Tokenizer::from_bytes(definition).map_err(|e| e.to_string())
}

/// `added_tokens` of the post-processor of a `tokenizers::Tokenizer`, for a single text;
/// zero without a post-processor. It depends on the definition alone.
#[verifier::external_body]
fn count_added_tokens(t: &Tokenizer) -> (r: usize)
    ensures
        r == added_tokens(tokenizer_model(*t).definition),
{
    t.get_post_processor().map_or(0, |p| tokenizers::PostProcessor::added_tokens(p, false))
}

/// `tokenizers::TokenizerImpl::with_truncation` with the default parameters and a maximal
/// length, or with none. It subtracts the added tokens from the length, which must not be
/// smaller; and as the default stride is zero it does not fail. Nothing else of the
/// tokenizer changes.
#[verifier::external_body]
fn set_truncation(t: &mut Tokenizer, max_length: Option<usize>)
    requires
        max_length matches Some(n) ==> added_tokens(tokenizer_model(*old(t)).definition) <= n,
    ensures
        tokenizer_model(*final(t)) == (TokenizerModel {
            truncation: match max_length {
                Some(n) => Truncation::At(n as nat),
                None => Truncation::Off,
            },
            ..tokenizer_model(*old(t))
        }),
{
    let params = max_length.map(|n| TruncationParams { max_length: n, ..Default::default() });
    t.with_truncation(params).map(|_| ()).unwrap()
}

/// `tokenizers::TokenizerImpl::with_padding` with no parameters: texts are not filled up.
/// Nothing else of the tokenizer changes.
#[verifier::external_body]
fn clear_padding(t: &mut Tokenizer)
    ensures
        tokenizer_model(*final(t)) == (TokenizerModel {
            padding: Padding::Off,
            ..tokenizer_model(*old(t))
        }),
{
    t.with_padding(None);
}

/// `tokenizers::TokenizerImpl::encode` of a single text with special tokens: gives one of
/// the possible answers for the tokenizer and the text. The three rows have one length.
/// The text of the error is not stated. With other definitions the call may panic, such as
/// with a template that names a second text or a special token that is not listed, and it
/// subtracts the number of special tokens from the length at which texts are cut. It panics
/// where the search by regular expression fails, as it does in a text that is too long.
#[verifier::external_body]
fn encode(t: &Tokenizer, text: &str) -> (r: Result<Encoded, String>)
    requires
        encodes(tokenizer_model(*t)),
        manageable(tokenizer_model(*t).definition, text@),
    ensures
        match r {
            Ok(e) => encodings(tokenizer_model(*t), text@).contains(Some(e@)) && e.mask@.len()
                == e.ids@.len() && e.type_ids@.len() == e.ids@.len(),
            Err(_) => encodings(tokenizer_model(*t), text@).contains(None),
        },
{
    let encoding = t.encode(text, true).map_err(|e| e.to_string())?;
    Ok(Encoded {
        ids: encoding.get_ids().to_vec(),
        mask: encoding.get_attention_mask().to_vec(),
        type_ids: encoding.get_type_ids().to_vec(),
    })
}

/// What a tokenizer may answer for a text: a text that is too long for the definition is not
/// encoded.
pub open spec fn answers(m: TokenizerModel, text: Seq<char>) -> Set<Option<TokenRows>> {
    if manageable(m.definition, text) {
        encodings(m, text)
    } else {
        set![None]
    }
}

/// Encodes a text, if it is not too long; `searched` tells whether the definition of the
/// tokenizer searches texts by regular expression.
pub(crate) fn encode_text(t: &Tokenizer, searched: bool, text: &str) -> (r: Result<
    Encoded,
    String,
>)
    requires
        encodes(tokenizer_model(*t)),
        searched == searching_definition(tokenizer_model(*t).definition),
    ensures
        match r {
            Ok(e) => answers(tokenizer_model(*t), text@).contains(Some(e@)) && e.mask@.len()
                == e.ids@.len() && e.type_ids@.len() == e.ids@.len(),
            Err(_) => answers(tokenizer_model(*t), text@).contains(None),
        },
{
    if searched && text.as_bytes().len() > MAX_SEARCHED_BYTES {
        return Err("the text is too long".to_string());
    }
    encode(t, text)
}

/// Why there is no tokenizer.
#[derive(Debug)]
pub enum TokenizerError {
    /// The definition cannot be parsed.
    Definition(String),
    /// The definition has parts that are not admitted.
    Unsupported,
    /// The special tokens alone are over the maximal length.
    SpecialTokens(usize),
}

/// A tokenizer that does not fill up texts, and that cuts them at `max_length` tokens if
/// there is such a length.
pub fn make_tokenizer(definition: &[u8], max_length: Option<usize>) -> (r: Result<
    Tokenizer,
    TokenizerError,
>)
    ensures
        if json_text(definition@) is None {
            r matches Err(TokenizerError::Definition(_))
        } else if !sound_definition(definition@) {
            r matches Err(TokenizerError::Unsupported)
        } else if !defines_tokenizer(definition@) {
            r matches Err(TokenizerError::Definition(_))
        } else if max_length is Some && added_tokens(definition@) > max_length->0 {
            r matches Err(TokenizerError::SpecialTokens(n)) && n == added_tokens(definition@)
        } else {
            r matches Ok(t) && tokenizer_model(t) == (TokenizerModel {
                definition: definition@,
                truncation: match max_length {
                    Some(n) => Truncation::At(n as nat),
                    None => Truncation::Off,
                },
                padding: Padding::Off,
            }) && encodes(tokenizer_model(t)) && (certain_definition(definition@)
                ==> answers_uniquely(definition@))
        },
{
    let parsed: Value = match parse_json(definition) {
        Ok(v) => v,
        Err(e) => return Err(TokenizerError::Definition(e)),
    };
    if !check_definition(definition, &parsed) {
        return Err(TokenizerError::Unsupported);
    }
    let mut t: Tokenizer = match load_tokenizer(definition) {
        Ok(t) => t,
        Err(e) => return Err(TokenizerError::Definition(e)),
    };
    match max_length {
        Some(n) => {
            let added: usize = count_added_tokens(&t);
            if added > n {
                return Err(TokenizerError::SpecialTokens(added));
            }
        },
        None => (),
    }
    set_truncation(&mut t, max_length);
    clear_padding(&mut t);
    Ok(t)
}

// ---------------------------------------------------------------------------
// Padded batches
// ---------------------------------------------------------------------------

/// A row of numbers, filled up with zeros.
pub open spec fn padded_row(row: Seq<u32>, width: nat) -> Seq<i64> {
    Seq::new(
        width,
        |i: int|
            if i < row.len() {
                row[i] as i64
            } else {
                0
            },
    )
}

/// Rows of numbers one behind the other, each filled up with zeros.
pub open spec fn padded(rows: Seq<Seq<u32>>, width: nat) -> Seq<i64>
    decreases rows.len(),
{
    if rows.len() == 0 {
        seq![]
    } else {
        padded(rows.drop_last(), width) + padded_row(rows.last(), width)
    }
}

/// The length of the longest row.
pub open spec fn widest(rows: Seq<Seq<u32>>) -> nat
    decreases rows.len(),
{
    if rows.len() == 0 {
        0
    } else {
        let before = widest(rows.drop_last());
        if before < rows.last().len() {
            rows.last().len()
        } else {
            before
        }
    }
}

/// The token numbers of each encoding.
pub open spec fn id_rows(v: Seq<Encoded>) -> Seq<Seq<u32>> {
    Seq::new(v.len(), |i: int| v[i].ids@)
}

/// The attention mask of each encoding.
pub open spec fn mask_rows(v: Seq<Encoded>) -> Seq<Seq<u32>> {
    Seq::new(v.len(), |i: int| v[i].mask@)
}

/// The token types of each encoding.
pub open spec fn type_rows(v: Seq<Encoded>) -> Seq<Seq<u32>> {
    Seq::new(v.len(), |i: int| v[i].type_ids@)
}

/// Encodings of a batch of texts, and their rows filled up to one width.
pub struct PaddedBatch {
    pub encodings: Vec<Encoded>,
    pub width: usize,
    pub ids: Vec<i64>,
    pub mask: Vec<i64>,
    pub type_ids: Vec<i64>,
}

/// Appends a row, filled up with zeros.
fn push_padded(flat: &mut Vec<i64>, row: &Vec<u32>, width: usize)
    ensures
        final(flat)@ == old(flat)@ + padded_row(row@, width as nat),
{
    let ghost start = flat@;
    let mut i: usize = 0;
    while i < width
        invariant
            i <= width,
            flat@ == start + padded_row(row@, width as nat).take(i as int),
        decreases width - i,
    {
        if i < row.len() {
            flat.push(row[i] as i64);
        } else {
            flat.push(0);
        }
        i = i + 1;
        assert(flat@ =~= start + padded_row(row@, width as nat).take(i as int));
    }
    assert(padded_row(row@, width as nat).take(i as int) =~= padded_row(row@, width as nat));
}

/// Fills up the rows of a batch to the width of the longest encoding.
pub fn pad_batch(encodings: Vec<Encoded>) -> (r: PaddedBatch)
    ensures
        r.encodings@ == encodings@,
        r.width == widest(id_rows(encodings@)),
        r.ids@ == padded(id_rows(encodings@), r.width as nat),
        r.mask@ == padded(mask_rows(encodings@), r.width as nat),
        r.type_ids@ == padded(type_rows(encodings@), r.width as nat),
{
    let n: usize = encodings.len();
    let ghost ids_of = id_rows(encodings@);
    let ghost masks_of = mask_rows(encodings@);
    let ghost types_of = type_rows(encodings@);
    let mut width: usize = 0;
    let mut i: usize = 0;
    while i < n
        invariant
            i <= n == encodings@.len(),
            ids_of == id_rows(encodings@),
            width == widest(ids_of.take(i as int)),
        decreases n - i,
    {
        assert(ids_of.take(i + 1).drop_last() =~= ids_of.take(i as int));
        let len: usize = encodings[i].ids.len();
        if width < len {
            width = len;
        }
        i = i + 1;
    }
    assert(ids_of.take(i as int) =~= ids_of);
    let mut ids: Vec<i64> = Vec::new();
    let mut mask: Vec<i64> = Vec::new();
    let mut type_ids: Vec<i64> = Vec::new();
    let mut b: usize = 0;
    while b < n
        invariant
            b <= n == encodings@.len(),
            ids_of == id_rows(encodings@),
            masks_of == mask_rows(encodings@),
            types_of == type_rows(encodings@),
            ids@ == padded(ids_of.take(b as int), width as nat),
            mask@ == padded(masks_of.take(b as int), width as nat),
            type_ids@ == padded(types_of.take(b as int), width as nat),
        decreases n - b,
    {
        assert(ids_of.take(b + 1).drop_last() =~= ids_of.take(b as int));
        assert(masks_of.take(b + 1).drop_last() =~= masks_of.take(b as int));
        assert(types_of.take(b + 1).drop_last() =~= types_of.take(b as int));
        push_padded(&mut ids, &encodings[b].ids, width);
        push_padded(&mut mask, &encodings[b].mask, width);
        push_padded(&mut type_ids, &encodings[b].type_ids, width);
        b = b + 1;
    }
    assert(ids_of.take(b as int) =~= ids_of);
    assert(masks_of.take(b as int) =~= masks_of);
    assert(types_of.take(b as int) =~= types_of);
    PaddedBatch { encodings: encodings, width: width, ids: ids, mask: mask, type_ids: type_ids }
}

/// In the padded rows the number at place `i` of row `b` is that of the row, or zero behind
/// its end.
pub proof fn law_padded_place(rows: Seq<Seq<u32>>, width: nat, b: int, i: int)
    requires
        0 <= b < rows.len(),
        0 <= i < width,
    ensures
        padded(rows, width).len() == rows.len() * width,
        0 <= b * width + i < rows.len() * width,
        padded(rows, width)[b * width + i] == (if i < rows[b].len() {
            rows[b][i] as int
        } else {
            0
        }),
    decreases rows.len(),
{
    lemma_padded_len(rows, width);
    let front = rows.drop_last();
    lemma_padded_len(front, width);
    assert(b * width + i < (b + 1) * width) by (nonlinear_arith)
        requires
            i < width,
    ;
    assert(0 <= b * width) by (nonlinear_arith)
        requires
            0 <= b,
    ;
    assert((b + 1) * width <= rows.len() * width) by (nonlinear_arith)
        requires
            b + 1 <= rows.len(),
    ;
    if b < front.len() {
        law_padded_place(front, width, b, i);
        assert(front[b] == rows[b]);
    } else {
        assert(padded(rows, width)[b * width + i] == padded_row(rows.last(), width)[i]);
    }
}

/// The length of padded rows.
proof fn lemma_padded_len(rows: Seq<Seq<u32>>, width: nat)
    ensures
        padded(rows, width).len() == rows.len() * width,
    decreases rows.len(),
{
    if rows.len() > 0 {
        lemma_padded_len(rows.drop_last(), width);
        assert(rows.len() * width == (rows.len() - 1) * width + width) by (nonlinear_arith);
    }
}

/// A batch of encodings, filled up: its width is that of its longest encoding, and place `i` of
/// row `b` holds what the encoding of text `b` holds at place `i`, or zero behind its end.
pub proof fn law_pad_batch(encodings: Vec<Encoded>, r: PaddedBatch, b: int, i: int)
    requires
        call_ensures(pad_batch, (encodings,), r),
    ensures
        r.encodings@ == encodings@,
        is_width(encodings@, r.width as int),
        0 <= b < encodings@.len() && 0 <= i < r.width ==> filled_up(encodings@, r, b, i),
{
    lemma_filled_up(encodings@, r, b, i);
}

/// Is this the number of tokens of the longest encoding, or zero if there is none?
pub open spec fn is_width(encodings: Seq<Encoded>, width: int) -> bool {
    &&& forall|b: int| 0 <= b < encodings.len() ==> (#[trigger] encodings[b]).ids@.len() <= width
    &&& width == 0 || exists|b: int|
        0 <= b < encodings.len() && (#[trigger] encodings[b]).ids@.len() == width
}

/// Does place `i` of row `b` hold what the encoding of text `b` holds, or zero behind its end?
pub open spec fn filled_up(encodings: Seq<Encoded>, r: PaddedBatch, b: int, i: int) -> bool {
    let at = b * r.width + i;
    let e = encodings[b];
    &&& r.ids@.len() == encodings.len() * r.width
    &&& r.mask@.len() == encodings.len() * r.width
    &&& r.type_ids@.len() == encodings.len() * r.width
    &&& 0 <= at < encodings.len() * r.width
    &&& r.ids@[at] == (if i < e.ids@.len() {
        e.ids@[i] as int
    } else {
        0
    })
    &&& r.mask@[at] == (if i < e.mask@.len() {
        e.mask@[i] as int
    } else {
        0
    })
    &&& r.type_ids@[at] == (if i < e.type_ids@.len() {
        e.type_ids@[i] as int
    } else {
        0
    })
}

/// The longest of rows.
proof fn lemma_widest(rows: Seq<Seq<u32>>)
    ensures
        forall|b: int| 0 <= b < rows.len() ==> (#[trigger] rows[b]).len() <= widest(rows),
        widest(rows) == 0 || exists|b: int|
            0 <= b < rows.len() && (#[trigger] rows[b]).len() == widest(rows),
    decreases rows.len(),
{
    if rows.len() > 0 {
        let front = rows.drop_last();
        lemma_widest(front);
        assert forall|b: int| 0 <= b < rows.len() implies (#[trigger] rows[b]).len() <= widest(
            rows,
        ) by {
            if b < front.len() {
                assert(front[b] == rows[b]);
            }
        }
        if widest(rows) == rows.last().len() {
            assert(rows[rows.len() - 1].len() == widest(rows));
        } else if widest(front) > 0 {
            let b = choose|b: int|
                0 <= b < front.len() && (#[trigger] front[b]).len() == widest(front);
            assert(rows[b].len() == widest(rows));
        }
    }
}

/// Rows that are filled up.
pub proof fn lemma_filled_up(encodings: Seq<Encoded>, r: PaddedBatch, b: int, i: int)
    requires
        r.width == widest(id_rows(encodings)),
        r.ids@ == padded(id_rows(encodings), r.width as nat),
        r.mask@ == padded(mask_rows(encodings), r.width as nat),
        r.type_ids@ == padded(type_rows(encodings), r.width as nat),
    ensures
        is_width(encodings, r.width as int),
        0 <= b < encodings.len() && 0 <= i < r.width ==> filled_up(encodings, r, b, i),
{
    let ids = id_rows(encodings);
    lemma_widest(ids);
    assert forall|c: int| 0 <= c < encodings.len() implies (#[trigger] encodings[c]).ids@.len()
        <= r.width by {
        assert(ids[c] == encodings[c].ids@);
    }
    if r.width > 0 {
        let c = choose|c: int| 0 <= c < ids.len() && (#[trigger] ids[c]).len() == widest(ids);
        assert(encodings[c].ids@.len() == r.width);
    }
    if 0 <= b < encodings.len() && 0 <= i < r.width {
        law_padded_place(ids, r.width as nat, b, i);
        law_padded_place(mask_rows(encodings), r.width as nat, b, i);
        law_padded_place(type_rows(encodings), r.width as nat, b, i);
    }
}

} // verus!
