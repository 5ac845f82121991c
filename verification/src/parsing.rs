//! Trace codec: maps text tokens to dense integer ids and carries id
//! streams through the versioned trace binary.
//!
//! Layout of the binary: 4 magic bytes `dtw\0`, 4 version bytes
//! (big-endian 1), a little-endian `u32` count, then one little-endian
//! 8-byte id per token.

use vstd::bytes::{
    lemma_auto_spec_u32_to_from_le_bytes, lemma_auto_spec_u64_to_from_le_bytes,
    spec_u32_from_le_bytes, spec_u32_to_le_bytes, spec_u64_from_le_bytes, spec_u64_to_le_bytes,
    u32_to_le_bytes, u64_from_le_bytes, u64_to_le_bytes,
};
use vstd::prelude::*;
use vstd::slice::slice_subrange;

use vstd::string::StrSliceExecFns;

use crate::dtw::TokenID;

verus! {

/// Why a trace binary was rejected.
#[derive(Clone, Copy, Debug, PartialEq, Eq, Structural)]
pub enum CodecError {
    /// The first four bytes are not the trace magic.
    InvalidMagic,
    /// The version field names a version this codec does not speak.
    UnsupportedVersion,
    /// The data ends before the header or the announced ids do.
    Truncated,
}

/// The four magic bytes `dtw\0`.
pub open spec fn magic_bytes() -> Seq<u8> {
    seq![0x64u8, 0x74u8, 0x77u8, 0x00u8]
}

/// The version field: 1, stored big-endian.
pub open spec fn version_bytes() -> Seq<u8> {
    seq![0x00u8, 0x00u8, 0x00u8, 0x01u8]
}

/// The id stream serialised back to back, 8 little-endian bytes each.
pub open spec fn ids_bytes(ids: Seq<u64>) -> Seq<u8>
    decreases ids.len(),
{
    if ids.len() == 0 {
        Seq::empty()
    } else {
        spec_u64_to_le_bytes(ids[0]) + ids_bytes(ids.drop_first())
    }
}

/// The complete trace binary for an id stream.
pub open spec fn trace_bytes(ids: Seq<u64>) -> Seq<u8> {
    magic_bytes() + version_bytes() + spec_u32_to_le_bytes(ids.len() as u32) + ids_bytes(ids)
}

/// What parsing a byte string yields: the id stream, or the first
/// reason to reject, checking the magic, then the version, then that
/// the announced count of ids is really there.
pub open spec fn parse_spec(data: Seq<u8>) -> Result<Seq<u64>, CodecError> {
    if data.len() < 4 {
        Err(CodecError::Truncated)
    } else if data.subrange(0, 4) != magic_bytes() {
        Err(CodecError::InvalidMagic)
    } else if data.len() < 8 {
        Err(CodecError::Truncated)
    } else if data.subrange(4, 8) != version_bytes() {
        Err(CodecError::UnsupportedVersion)
    } else if data.len() < 12 {
        Err(CodecError::Truncated)
    } else {
        let count = spec_u32_from_le_bytes(data.subrange(8, 12)) as int;
        if data.len() < 12 + 8 * count {
            Err(CodecError::Truncated)
        } else {
            Ok(
                Seq::new(
                    count as nat,
                    |k: int| spec_u64_from_le_bytes(data.subrange(12 + 8 * k, 20 + 8 * k)),
                ),
            )
        }
    }
}

pub proof fn lemma_ids_bytes_len(ids: Seq<u64>)
    ensures
        ids_bytes(ids).len() == 8 * ids.len(),
    decreases ids.len(),
{
    lemma_auto_spec_u64_to_from_le_bytes();
    if ids.len() > 0 {
        lemma_ids_bytes_len(ids.drop_first());
    }
}

pub proof fn lemma_ids_bytes_index(ids: Seq<u64>, k: int)
    requires
        0 <= k < ids.len(),
    ensures
        ids_bytes(ids).subrange(8 * k, 8 * k + 8) == spec_u64_to_le_bytes(ids[k]),
    decreases k,
{
    lemma_auto_spec_u64_to_from_le_bytes();
    lemma_ids_bytes_len(ids);
    lemma_ids_bytes_len(ids.drop_first());
    if k == 0 {
        assert(ids_bytes(ids).subrange(0, 8) =~= spec_u64_to_le_bytes(ids[0]));
    } else {
        lemma_ids_bytes_index(ids.drop_first(), k - 1);
        assert(ids_bytes(ids).subrange(8 * k, 8 * k + 8) =~= ids_bytes(
            ids.drop_first(),
        ).subrange(8 * (k - 1), 8 * (k - 1) + 8));
    }
}

/// Appending one id appends its eight bytes.
pub proof fn lemma_ids_bytes_snoc(ids: Seq<u64>, k: int)
    requires
        0 <= k < ids.len(),
    ensures
        ids_bytes(ids.take(k + 1)) == ids_bytes(ids.take(k)) + spec_u64_to_le_bytes(ids[k]),
    decreases k,
{
    lemma_auto_spec_u64_to_from_le_bytes();
    if k == 0 {
        assert(ids.take(1).drop_first() =~= Seq::<u64>::empty());
        assert(ids.take(1)[0] == ids[0]);
        assert(ids.take(0) =~= Seq::<u64>::empty());
        assert(ids_bytes(ids.take(1)) == spec_u64_to_le_bytes(ids.take(1)[0]) + ids_bytes(
            ids.take(1).drop_first(),
        ));
        assert(ids_bytes(ids.take(1)) =~= ids_bytes(ids.take(0)) + spec_u64_to_le_bytes(ids[0]));
    } else {
        lemma_ids_bytes_snoc(ids.drop_first(), k - 1);
        assert(ids.take(k + 1).drop_first() =~= ids.drop_first().take(k));
        assert(ids.take(k).drop_first() =~= ids.drop_first().take(k - 1));
        assert(ids.take(k + 1)[0] == ids[0]);
        assert(ids.take(k)[0] == ids[0]);
        assert(ids.drop_first()[k - 1] == ids[k]);
        assert(ids_bytes(ids.take(k + 1)) == spec_u64_to_le_bytes(ids[0]) + ids_bytes(
            ids.drop_first().take(k),
        ));
        assert(spec_u64_to_le_bytes(ids[0]) + (ids_bytes(ids.drop_first().take(k - 1))
            + spec_u64_to_le_bytes(ids[k])) =~= (spec_u64_to_le_bytes(ids[0]) + ids_bytes(
            ids.drop_first().take(k - 1),
        )) + spec_u64_to_le_bytes(ids[k]));
        assert(ids_bytes(ids.take(k)) == spec_u64_to_le_bytes(ids[0]) + ids_bytes(
            ids.drop_first().take(k - 1),
        ));
    }
}

/// The codec is round-trip: parsing a serialised id stream yields the
/// stream back, for every stream whose length fits the count field.
pub proof fn lemma_trace_round_trip(ids: Seq<u64>)
    requires
        ids.len() <= 0xFFFF_FFFF,
    ensures
        parse_spec(trace_bytes(ids)) == Ok::<Seq<u64>, CodecError>(ids),
{
    lemma_auto_spec_u32_to_from_le_bytes();
    lemma_auto_spec_u64_to_from_le_bytes();
    lemma_ids_bytes_len(ids);
    let data = trace_bytes(ids);
    assert(data.len() == 12 + 8 * ids.len());
    assert(data.subrange(0, 4) =~= magic_bytes());
    assert(data.subrange(4, 8) =~= version_bytes());
    assert(data.subrange(8, 12) =~= spec_u32_to_le_bytes(ids.len() as u32));
    let count = spec_u32_from_le_bytes(data.subrange(8, 12)) as int;
    assert(count == ids.len());
    let parsed = Seq::new(
        count as nat,
        |k: int| spec_u64_from_le_bytes(data.subrange(12 + 8 * k, 20 + 8 * k)),
    );
    assert forall|k: int| 0 <= k < count implies parsed[k] == ids[k] by {
        lemma_ids_bytes_index(ids, k);
        assert(data.subrange(12 + 8 * k, 20 + 8 * k) =~= ids_bytes(ids).subrange(
            8 * k,
            8 * k + 8,
        ));
        assert(spec_u64_from_le_bytes(spec_u64_to_le_bytes(ids[k])) == ids[k]);
    }
    assert(parsed =~= ids);
}

/// Serialises an id stream into the trace binary layout.
pub fn serialize_trace(ids: &Vec<TokenID>) -> (r: Vec<u8>)
    requires
        ids@.len() <= 0xFFFF_FFFF,
    ensures
        r@ == trace_bytes(ids@),
{
    let mut out: Vec<u8> = Vec::new();
    out.push(0x64);
    out.push(0x74);
    out.push(0x77);
    out.push(0x00);
    out.push(0x00);
    out.push(0x00);
    out.push(0x00);
    out.push(0x01);
    let mut count = u32_to_le_bytes(ids.len() as u32);
    out.append(&mut count);
    proof {
        lemma_auto_spec_u32_to_from_le_bytes();
        assert(out@ =~= magic_bytes() + version_bytes() + spec_u32_to_le_bytes(
            ids@.len() as u32,
        ) + ids_bytes(ids@.take(0)));
    }
    let ghost header = magic_bytes() + version_bytes() + spec_u32_to_le_bytes(ids@.len() as u32);
    let mut k: usize = 0;
    while k < ids.len()
        invariant
            k <= ids@.len(),
            ids@.len() <= 0xFFFF_FFFF,
            header == magic_bytes() + version_bytes() + spec_u32_to_le_bytes(ids@.len() as u32),
            out@ == header + ids_bytes(ids@.take(k as int)),
        decreases ids@.len() - k,
    {
        let mut next = u64_to_le_bytes(ids[k]);
        out.append(&mut next);
        proof {
            lemma_ids_bytes_snoc(ids@, k as int);
            assert(out@ =~= header + ids_bytes(ids@.take(k as int + 1)));
        }
        k = k + 1;
    }
    proof {
        assert(ids@.take(ids@.len() as int) =~= ids@);
    }
    out
}

/// Parses a trace binary, validating magic, version and count.
pub fn parse_trace(data: &Vec<u8>) -> (r: Result<Vec<TokenID>, CodecError>)
    ensures
        parse_spec(data@) is Ok ==> r is Ok && r->Ok_0@ == parse_spec(data@)->Ok_0,
        parse_spec(data@) is Err ==> r is Err && r->Err_0 == parse_spec(data@)->Err_0,
{
    if data.len() < 4 {
        return Err(CodecError::Truncated);
    }
    if !(data[0] == 0x64 && data[1] == 0x74 && data[2] == 0x77 && data[3] == 0x00) {
        proof {
            assert(data@.subrange(0, 4) != magic_bytes());
        }
        return Err(CodecError::InvalidMagic);
    }
    proof {
        assert(data@.subrange(0, 4) =~= magic_bytes());
    }
    if data.len() < 8 {
        return Err(CodecError::Truncated);
    }
    if !(data[4] == 0x00 && data[5] == 0x00 && data[6] == 0x00 && data[7] == 0x01) {
        proof {
            assert(data@.subrange(4, 8) != version_bytes());
        }
        return Err(CodecError::UnsupportedVersion);
    }
    proof {
        assert(data@.subrange(4, 8) =~= version_bytes());
    }
    if data.len() < 12 {
        return Err(CodecError::Truncated);
    }
    let count_bytes = slice_subrange(data.as_slice(), 8, 12);
    let count = vstd::bytes::u32_from_le_bytes(count_bytes);
    proof {
        assert(count_bytes@ =~= data@.subrange(8, 12));
    }
    let count = count as usize;
    let q = (data.len() - 12) / 8;
    proof {
        assert(8 * (q as int) <= data@.len() - 12 < 8 * (q as int + 1)) by (nonlinear_arith)
            requires
                q == (data@.len() - 12) / 8,
                data@.len() >= 12,
        ;
    }
    if q < count {
        proof {
            assert(data@.len() < 12 + 8 * (count as int));
        }
        return Err(CodecError::Truncated);
    }
    proof {
        assert(8 * (count as int) <= 8 * (q as int));
        assert(data@.len() >= 12 + 8 * (count as int));
    }
    let mut ids: Vec<TokenID> = Vec::new();
    let dlen = data.len();
    let mut k: usize = 0;
    while k < count
        invariant
            k <= count,
            dlen == data@.len(),
            data@.len() >= 12 + 8 * (count as int),
            count <= 0xFFFF_FFFF,
            ids@.len() == k,
            forall|t: int|
                0 <= t < k ==> (#[trigger] ids@[t]) == spec_u64_from_le_bytes(
                    data@.subrange(12 + 8 * t, 20 + 8 * t),
                ),
        decreases count - k,
    {
        proof {
            assert(8 * (k as int) + 8 <= 8 * (count as int));
            assert(20 + 8 * (k as int) <= dlen as int);
        }
        let chunk = slice_subrange(data.as_slice(), 12 + 8 * k, 20 + 8 * k);
        let id = u64_from_le_bytes(chunk);
        proof {
            assert(chunk@ =~= data@.subrange(12 + 8 * (k as int), 20 + 8 * (k as int)));
        }
        ids.push(id);
        k = k + 1;
    }
    proof {
        assert(ids@ =~= parse_spec(data@)->Ok_0);
    }
    Ok(ids)
}

/// The views of a batch of owned tokens.
pub open spec fn views(ts: Seq<String>) -> Seq<Seq<char>> {
    ts.map_values(|t: String| t@)
}

/// The token is already interned.
pub open spec fn has_token(table: Seq<Seq<char>>, tok: Seq<char>) -> bool {
    exists|k: int| 0 <= k < table.len() && table[k] == tok
}

/// The id of an interned token: its unique index in the table.
pub open spec fn token_index(table: Seq<Seq<char>>, tok: Seq<char>) -> int {
    choose|k: int| 0 <= k < table.len() && table[k] == tok
}

/// Interning one token: a known token leaves the table alone, a new
/// one is appended.
pub open spec fn step_table(table: Seq<Seq<char>>, tok: Seq<char>) -> Seq<Seq<char>> {
    if has_token(table, tok) {
        table
    } else {
        table.push(tok)
    }
}

/// The id interning one token yields: the existing index, or the next
/// dense id.
pub open spec fn step_id(table: Seq<Seq<char>>, tok: Seq<char>) -> u64 {
    if has_token(table, tok) {
        token_index(table, tok) as u64
    } else {
        table.len() as u64
    }
}

/// The ids a batch of tokens maps to, interning left to right.
pub open spec fn ids_of(table: Seq<Seq<char>>, toks: Seq<Seq<char>>) -> Seq<u64>
    decreases toks.len(),
{
    if toks.len() == 0 {
        Seq::empty()
    } else {
        seq![step_id(table, toks[0])] + ids_of(step_table(table, toks[0]), toks.drop_first())
    }
}

/// The table after interning a batch of tokens left to right.
pub open spec fn table_after(table: Seq<Seq<char>>, toks: Seq<Seq<char>>) -> Seq<Seq<char>>
    decreases toks.len(),
{
    if toks.len() == 0 {
        table
    } else {
        table_after(step_table(table, toks[0]), toks.drop_first())
    }
}

/// The largest token length after seeing a batch, starting from `l`.
pub open spec fn max_len_of(l: int, toks: Seq<Seq<char>>) -> int
    decreases toks.len(),
{
    if toks.len() == 0 {
        l
    } else {
        max_len_of(
            if toks[0].len() > l {
                toks[0].len() as int
            } else {
                l
            },
            toks.drop_first(),
        )
    }
}

/// The longest token in a table.
pub open spec fn table_max_len(table: Seq<Seq<char>>) -> int
    decreases table.len(),
{
    if table.len() == 0 {
        0
    } else {
        let rest = table_max_len(table.drop_last());
        if table.last().len() > rest {
            table.last().len() as int
        } else {
            rest
        }
    }
}

/// No token appears twice in the table.
pub open spec fn distinct_table(table: Seq<Seq<char>>) -> bool {
    forall|k1: int, k2: int|
        #![trigger table[k1], table[k2]]
        0 <= k1 < k2 < table.len() ==> table[k1] != table[k2]
}

/// Every interned token is at most the table's maximum length.
pub proof fn lemma_table_max_len_ge(table: Seq<Seq<char>>, k: int)
    requires
        0 <= k < table.len(),
    ensures
        table[k].len() <= table_max_len(table),
    decreases table.len(),
{
    if k < table.len() - 1 {
        lemma_table_max_len_ge(table.drop_last(), k);
    }
}

/// Appending a token raises the maximum to its length if longer.
pub proof fn lemma_table_max_len_push(table: Seq<Seq<char>>, tok: Seq<char>)
    ensures
        table_max_len(table.push(tok)) == if tok.len() > table_max_len(table) {
            tok.len() as int
        } else {
            table_max_len(table)
        },
{
    assert(table.push(tok).drop_last() =~= table);
    assert(table.push(tok).last() == tok);
}

/// One interning step commutes with the left-to-right folds: what the
/// batch folds yield on `k + 1` tokens is the step applied after `k`.
pub proof fn lemma_codec_fold_snoc(table: Seq<Seq<char>>, l: int, toks: Seq<Seq<char>>, k: int)
    requires
        0 <= k < toks.len(),
    ensures
        table_after(table, toks.take(k + 1)) == step_table(
            table_after(table, toks.take(k)),
            toks[k],
        ),
        ids_of(table, toks.take(k + 1)) == ids_of(table, toks.take(k)).push(
            step_id(table_after(table, toks.take(k)), toks[k]),
        ),
        max_len_of(l, toks.take(k + 1)) == (if toks[k].len() > max_len_of(l, toks.take(k)) {
            toks[k].len() as int
        } else {
            max_len_of(l, toks.take(k))
        }),
    decreases k,
{
    if k == 0 {
        assert(toks.take(1).drop_first() =~= Seq::<Seq<char>>::empty());
        assert(toks.take(1)[0] == toks[0]);
        assert(toks.take(0) =~= Seq::<Seq<char>>::empty());
        assert(table_after(table, toks.take(0)) == table);
        assert(ids_of(table, toks.take(0)) == Seq::<u64>::empty());
        assert(max_len_of(l, toks.take(0)) == l);
        let s1 = toks.take(1);
        assert(s1.len() == 1);
        let step_l: int = if toks[0].len() > l {
            toks[0].len() as int
        } else {
            l
        };
        assert(max_len_of(l, s1) == max_len_of(step_l, s1.drop_first()));
        assert(max_len_of(step_l, s1.drop_first()) == step_l);
        assert(table_after(table, s1) == table_after(step_table(table, s1[0]), s1.drop_first()));
        assert(table_after(step_table(table, s1[0]), s1.drop_first()) == step_table(
            table,
            toks[0],
        ));
        assert(ids_of(table, s1) == seq![step_id(table, s1[0])] + ids_of(
            step_table(table, s1[0]),
            s1.drop_first(),
        ));
        assert(ids_of(step_table(table, s1[0]), s1.drop_first()) == Seq::<u64>::empty());
        assert(ids_of(table, s1) =~= ids_of(table, toks.take(0)).push(step_id(table, toks[0])));
        assert(max_len_of(l, s1) == (if toks[0].len() > l {
            toks[0].len() as int
        } else {
            l
        }));
    } else {
        let t1 = step_table(table, toks[0]);
        let l1: int = if toks[0].len() > l {
            toks[0].len() as int
        } else {
            l
        };
        lemma_codec_fold_snoc(t1, l1, toks.drop_first(), k - 1);
        assert(toks.take(k + 1).drop_first() =~= toks.drop_first().take(k));
        assert(toks.take(k).drop_first() =~= toks.drop_first().take(k - 1));
        assert(toks.take(k + 1)[0] == toks[0]);
        assert(toks.take(k)[0] == toks[0]);
        assert(toks.drop_first()[k - 1] == toks[k]);
        assert(ids_of(table, toks.take(k + 1)) == seq![step_id(table, toks[0])] + ids_of(
            t1,
            toks.drop_first().take(k),
        ));
        assert(ids_of(table, toks.take(k)) == seq![step_id(table, toks[0])] + ids_of(
            t1,
            toks.drop_first().take(k - 1),
        ));
        assert(seq![step_id(table, toks[0])] + ids_of(t1, toks.drop_first().take(k - 1)).push(
            step_id(table_after(t1, toks.drop_first().take(k - 1)), toks[k]),
        ) =~= (seq![step_id(table, toks[0])] + ids_of(t1, toks.drop_first().take(k - 1))).push(
            step_id(table_after(t1, toks.drop_first().take(k - 1)), toks[k]),
        ));
    }
}

/// Bidirectional token/id interner plus trace binary codec.
pub trait TraceEncoder: Sized {
    /// The interned tokens, in id order.
    spec fn table(&self) -> Seq<Seq<char>>;

    /// The longest token length seen.
    spec fn largest(&self) -> int;

    /// Ids are dense and the mapping injective.
    spec fn wf(&self) -> bool;

    /// Interns a batch of tokens and serialises their ids into the
    /// trace binary layout.
    fn create_bin(&mut self, tokens: Vec<String>) -> (r: (Vec<TokenID>, Vec<u8>))
        requires
            old(self).wf(),
            tokens@.len() <= 0xFFFF_FFFF,
        ensures
            final(self).wf(),
            r.0@ == ids_of(old(self).table(), views(tokens@)),
            r.1@ == trace_bytes(r.0@),
            final(self).table() == table_after(old(self).table(), views(tokens@)),
            final(self).largest() == max_len_of(old(self).largest(), views(tokens@)),
    ;

    /// Maps the token to its unique id, interning it if new.
    fn token_to_id(&mut self, token: &str) -> (r: TokenID)
        requires
            old(self).wf(),
        ensures
            final(self).wf(),
            final(self).table() == step_table(old(self).table(), token@),
            r == step_id(old(self).table(), token@),
            final(self).largest() == (if token@.len() > old(self).largest() {
                token@.len() as int
            } else {
                old(self).largest()
            }),
    ;

    /// Maps an id back to its token.
    fn id_to_token(&self, id: TokenID) -> (r: String)
        requires
            self.wf(),
            id < self.table().len(),
        ensures
            r@ == self.table()[id as int],
    ;

    /// Decodes a trace binary into its id stream.
    fn deserialize(&self, data: &Vec<u8>) -> (r: Result<Vec<TokenID>, CodecError>)
        ensures
            parse_spec(data@) is Ok ==> r is Ok && r->Ok_0@ == parse_spec(data@)->Ok_0,
            parse_spec(data@) is Err ==> r is Err && r->Err_0 == parse_spec(data@)->Err_0,
    ;
}

/// In-memory interner: the table is a vector of owned tokens whose
/// index is the id.
pub struct ToMemoryParser {
    pub tokens: Vec<String>,
    pub largest_token: usize,
}

impl ToMemoryParser {
    /// The longest token length seen by the interner.
    pub fn get_largest_token(&self) -> (r: usize)
        ensures
            r == self.largest(),
    {
        self.largest_token
    }
}

impl Default for ToMemoryParser {
    fn default() -> (r: Self)
        ensures
            r.wf(),
            r.table() == Seq::<Seq<char>>::empty(),
            r.largest() == 0,
    {
        let r = ToMemoryParser { tokens: Vec::new(), largest_token: 0 };
        proof {
            assert(r.table() =~= Seq::<Seq<char>>::empty());
        }
        r
    }
}

impl TraceEncoder for ToMemoryParser {
    open spec fn table(&self) -> Seq<Seq<char>> {
        views(self.tokens@)
    }

    open spec fn largest(&self) -> int {
        self.largest_token as int
    }

    open spec fn wf(&self) -> bool {
        &&& distinct_table(self.table())
        &&& self.largest() == table_max_len(self.table())
    }

    fn create_bin(&mut self, tokens: Vec<String>) -> (r: (Vec<TokenID>, Vec<u8>)) {
        let ghost table0 = self.table();
        let ghost l0 = self.largest();
        let ghost tviews = views(tokens@);
        let mut ids: Vec<TokenID> = Vec::new();
        let n = tokens.len();
        let mut k: usize = 0;
        while k < n
            invariant
                k <= n,
                n == tokens@.len(),
                tviews == views(tokens@),
                self.wf(),
                ids@.len() == k,
                ids@ == ids_of(table0, tviews.take(k as int)),
                self.table() == table_after(table0, tviews.take(k as int)),
                self.largest() == max_len_of(l0, tviews.take(k as int)),
            decreases n - k,
        {
            let tok: &String = &tokens[k];
            let id = self.token_to_id(tok.as_str());
            ids.push(id);
            proof {
                lemma_codec_fold_snoc(table0, l0, tviews, k as int);
                assert(tviews[k as int] == tokens@[k as int]@);
            }
            k = k + 1;
        }
        proof {
            assert(tviews.take(n as int) =~= tviews);
        }
        let bytes = serialize_trace(&ids);
        (ids, bytes)
    }

    fn token_to_id(&mut self, token: &str) -> (r: TokenID) {
        let ghost table0 = self.table();
        let ghost l0 = self.largest();
        let l = token.unicode_len();
        if l > self.largest_token {
            self.largest_token = l;
        }
        let n = self.tokens.len();
        proof {
            assert(distinct_table(table0));
            assert(l0 == table_max_len(table0));
            assert(self.largest() == (if token@.len() > l0 {
                token@.len() as int
            } else {
                l0
            }));
        }
        let t_owned: String = token.to_owned();
        let mut k: usize = 0;
        while k < n
            invariant
                k <= n,
                n == self.tokens@.len(),
                table0 == self.table(),
                table0 == old(self).table(),
                l0 == old(self).largest(),
                distinct_table(table0),
                l0 == table_max_len(table0),
                self.largest() == (if token@.len() > l0 {
                    token@.len() as int
                } else {
                    l0
                }),
                t_owned@ == token@,
                forall|c: int| 0 <= c < k ==> self.table()[c] != token@,
            decreases n - k,
        {
            let cand: &String = &self.tokens[k];
            if cand.eq(&t_owned) {
                proof {
                    assert(self.table()[k as int] == token@);
                    assert(has_token(table0, token@));
                    let ki = token_index(table0, token@);
                    assert(0 <= ki < table0.len() && table0[ki] == token@);
                    if ki < k as int {
                        assert(table0[ki] != table0[k as int]);
                        assert(false);
                    }
                    if ki > k as int {
                        assert(table0[k as int] != table0[ki]);
                        assert(false);
                    }
                    assert(step_id(table0, token@) == k as u64);
                    assert(step_table(table0, token@) == table0);
                    lemma_table_max_len_ge(table0, k as int);
                    assert(self.largest() == table_max_len(table0));
                }
                return k as u64;
            }
            k = k + 1;
        }
        proof {
            assert(!has_token(table0, token@));
        }
        let id = self.tokens.len() as u64;
        self.tokens.push(t_owned);
        proof {
            assert(self.table() =~= table0.push(token@));
            lemma_table_max_len_push(table0, token@);
            assert forall|k1: int, k2: int|
                #![trigger self.table()[k1], self.table()[k2]]
                0 <= k1 < k2 < self.table().len() implies self.table()[k1]
                != self.table()[k2] by {
                if k2 == self.table().len() - 1 {
                    assert(self.table()[k1] == table0[k1]);
                } else {
                    assert(self.table()[k1] == table0[k1]);
                    assert(self.table()[k2] == table0[k2]);
                }
            }
        }
        id
    }

    fn id_to_token(&self, id: TokenID) -> (r: String) {
        let nn = self.tokens.len();
        proof {
            assert((id as int) < (nn as int));
        }
        let idx = id as usize;
        let tok: &String = &self.tokens[idx];
        proof {
            assert(self.table()[id as int] == self.tokens@[id as int]@);
        }
        tok.clone()
    }

    fn deserialize(&self, data: &Vec<u8>) -> (r: Result<Vec<TokenID>, CodecError>) {
        parse_trace(data)
    }
}

} // verus!
