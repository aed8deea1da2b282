//! A vector of strings stored FSST-compressed, with random access.
use vstd::prelude::*;
use vstd::utf8::*;
use vstd::slice::slice_subrange;

verus! {

broadcast use vstd::utf8::group_utf8_lib;

#[verifier::external_type_specification]
#[verifier::external_body]
pub struct ExCompressor(fsst::Compressor);

/// The symbol table a compressor holds: for each code, the symbol's eight
/// little-endian bytes and its length.
pub uninterp spec fn compressor_table(c: fsst::Compressor) -> Seq<([u8; 8], u8)>;

/// The symbol table that `fsst::Compressor::train` builds from a corpus.
pub uninterp spec fn trained_table(samples: Seq<Seq<u8>>) -> Seq<([u8; 8], u8)>;

/// The codes that `fsst::Compressor::compress` emits for `plain` under a table.
pub uninterp spec fn fsst_compressed(table: Seq<([u8; 8], u8)>, plain: Seq<u8>) -> Seq<u8>;

/// The bytes that `fsst::Decompressor::decompress` produces from `codes` under a table.
pub uninterp spec fn fsst_decompressed(table: Seq<([u8; 8], u8)>, codes: Seq<u8>) -> Seq<u8>;

/// The escape code of FSST: the byte after it stands for itself.
pub const ESCAPE_CODE: u8 = 255;

/// A code sequence in which every escape code is followed by the byte it escapes.
pub open spec fn codes_complete(codes: Seq<u8>) -> bool
    decreases codes.len(),
{
    if codes.len() == 0 {
        true
    } else if codes[0] == ESCAPE_CODE {
        codes.len() >= 2 && codes_complete(codes.skip(2))
    } else {
        codes_complete(codes.skip(1))
    }
}

/// A symbol table that a decompressor can hold: at most 255 codes, none
/// longer than eight bytes.
pub open spec fn table_fits(table: Seq<([u8; 8], u8)>) -> bool {
    &&& table.len() <= 255
    &&& forall|j: int| 0 <= j < table.len() ==> #[trigger] table[j].1 <= 8
}

/// The table formed by pairing symbols with their lengths.
pub open spec fn zip_table(syms: Seq<[u8; 8]>, lens: Seq<u8>) -> Seq<([u8; 8], u8)> {
    Seq::new(syms.len(), |j: int| (syms[j], lens[j]))
}

/// Trains an FSST compressor on a corpus.
/// Calls `fsst::Compressor::train`; the resulting table is named by the corpus
/// alone, which the crate's training (fixed seeds, a deterministic hasher) supports.
#[verifier::external_body]
fn train_compressor(samples: &Vec<&[u8]>) -> (c: fsst::Compressor)
    ensures
        compressor_table(c) == trained_table(samples@.map_values(|s: &[u8]| s@)),
{
    fsst::Compressor::train(samples)
}

/// The symbols of a compressor's table, each as its eight little-endian bytes.
/// Calls `fsst::Compressor::symbol_table`; a table holds at most 255 symbols.
#[verifier::external_body]
fn compressor_symbols(c: &fsst::Compressor) -> (r: Vec<[u8; 8]>)
    ensures
        r@ == compressor_table(*c).map_values(|e: ([u8; 8], u8)| e.0),
        r@.len() <= 255,
{
    c.symbol_table().iter().map(|s| s.to_u64().to_le_bytes()).collect()
}

/// The symbol lengths of a compressor's table.
/// Calls `fsst::Compressor::symbol_lengths`; the crate keeps every length between 1 and 8.
#[verifier::external_body]
fn compressor_lengths(c: &fsst::Compressor) -> (r: Vec<u8>)
    ensures
        r@ == compressor_table(*c).map_values(|e: ([u8; 8], u8)| e.1),
        forall|j: int| 0 <= j < r@.len() ==> 1 <= #[trigger] r@[j] <= 8,
{
    c.symbol_lengths().to_vec()
}

/// Compresses a byte string.
/// Calls `fsst::Compressor::compress`. Claimed of it: the codes are a function
/// of the table and the input; decompressing them with the same table gives the
/// input back; every escape is followed by its byte; the output is at most
/// twice as long as the input (all escapes).
#[verifier::external_body]
fn compress(c: &fsst::Compressor, plain: &[u8]) -> (r: Vec<u8>)
    ensures
        r@ == fsst_compressed(compressor_table(*c), plain@),
        fsst_decompressed(compressor_table(*c), r@) == plain@,
        codes_complete(r@),
        r@.len() <= 2 * plain@.len(),
{
    c.compress(plain)
}

/// Decompresses codes with a table given as symbols and lengths.
/// Calls `fsst::Decompressor::new` on the table padded to 255 entries, then
/// `decompress`. That one panics on an escape code with no byte after it, and
/// writes past its buffer with symbol lengths above eight: `requires` leaves both out.
#[verifier::external_body]
fn decompress(syms: &Vec<[u8; 8]>, lens: &Vec<u8>, codes: &[u8]) -> (r: Vec<u8>)
    requires
        syms@.len() == lens@.len(),
        table_fits(zip_table(syms@, lens@)),
        codes_complete(codes@),
    ensures
        r@ == fsst_decompressed(zip_table(syms@, lens@), codes@),
{
    let mut table_syms = [fsst::Symbol::ZERO; 255];
    let mut table_lens = [0u8; 255];
    for j in 0..syms.len() {
        table_syms[j] = fsst::Symbol::from_slice(&syms[j]);
        table_lens[j] = lens[j];
    }
    fsst::Decompressor::new(&table_syms, &table_lens).decompress(codes)
}

/// Turns bytes into a `String` when they are UTF-8.
/// Calls `String::from_utf8`, which fails exactly on bytes that are not UTF-8.
#[verifier::external_body]
pub(crate) fn string_from_utf8(bytes: Vec<u8>) -> (r: Option<String>)
    ensures
        r is Some <==> valid_utf8(bytes@),
        r matches Some(s) ==> s@ == decode_utf8(bytes@),
{
    String::from_utf8(bytes).ok()
}

/// Number of UTF-8 bytes in a sequence of strings.
pub open spec fn total_bytes(strings: Seq<Seq<char>>) -> nat
    decreases strings.len(),
{
    if strings.len() == 0 {
        0
    } else {
        total_bytes(strings.drop_last()) + encode_utf8(strings.last()).len()
    }
}

pub proof fn lemma_total_bytes_step(strings: Seq<Seq<char>>, k: int)
    requires
        0 <= k < strings.len(),
    ensures
        total_bytes(strings.take(k + 1)) == total_bytes(strings.take(k)) + encode_utf8(strings[k]).len(),
        total_bytes(strings.take(k + 1)) <= total_bytes(strings),
    decreases strings.len(),
{
    assert(strings.take(k + 1).drop_last() =~= strings.take(k));
    if k + 1 < strings.len() {
        lemma_total_bytes_step(strings.drop_last(), k);
        assert(strings.drop_last().take(k + 1) =~= strings.take(k + 1));
        assert(strings.drop_last().take(k) =~= strings.take(k));
        lemma_total_bytes_prefix(strings, k + 1);
    } else {
        assert(strings.take(k + 1) =~= strings);
    }
}

pub proof fn lemma_total_bytes_prefix(strings: Seq<Seq<char>>, k: int)
    requires
        0 <= k <= strings.len(),
    ensures
        total_bytes(strings.take(k)) <= total_bytes(strings),
    decreases strings.len(),
{
    if k < strings.len() {
        assert(strings.drop_last().take(k) =~= strings.take(k));
        lemma_total_bytes_prefix(strings.drop_last(), k);
    } else {
        assert(strings.take(k) =~= strings);
    }
}

/// Whether texts are small enough to be compressed into one vector: at most
/// half of `u32::MAX` bytes in all, since compressed text can be twice as long
/// and offsets into it are 32-bit.
pub fn text_fits(strings: &[&str]) -> (r: bool)
    ensures
        r == (2 * total_bytes(strings@.map_values(|s: &str| s@)) <= u32::MAX),
{
    let ghost sv = strings@.map_values(|s: &str| s@);
    let n = strings.len();
    let mut total: u64 = 0;
    assert(sv.take(0) =~= Seq::<Seq<char>>::empty());
    for k in 0..n
        invariant
            n == strings@.len(),
            sv == strings@.map_values(|s: &str| s@),
            total == total_bytes(sv.take(k as int)),
            2 * total <= u32::MAX,
    {
        proof {
            lemma_total_bytes_step(sv, k as int);
            assert(sv[k as int] == strings@[k as int]@);
        }
        let b = strings[k].as_bytes().len();
        assert(b == encode_utf8(strings@[k as int]@).len());
        if b as u64 > 2147483647 || total + b as u64 > 2147483647 {
            return false;
        }
        total = total + b as u64;
    }
    assert(sv.take(n as int) =~= sv);
    true
}

/// A minimal FSST-compressed vector of UTF-8 strings with random access.
pub struct FsstStrVec {
    dict_syms: Vec<[u8; 8]>,
    dict_lens: Vec<u8>,
    offsets: Vec<u32>,
    data: Vec<u8>,
}

/// Where item `i` of a code layout ends: at the next offset, or at the end of the data.
pub open spec fn layout_end(offsets: Seq<u32>, data: Seq<u8>, i: int) -> int {
    if i + 1 < offsets.len() {
        offsets[i + 1] as int
    } else {
        data.len() as int
    }
}

/// The codes of item `i` of a code layout.
pub open spec fn layout_codes(offsets: Seq<u32>, data: Seq<u8>, i: int) -> Seq<u8> {
    data.subrange(offsets[i] as int, layout_end(offsets, data, i))
}

/// A compressed layout that can be read back: the items lie in order within
/// the data, every item's codes are complete, and each decodes to UTF-8.
pub open spec fn layout_well_formed(
    syms: Seq<[u8; 8]>,
    lens: Seq<u8>,
    offsets: Seq<u32>,
    data: Seq<u8>,
) -> bool {
    &&& syms.len() == lens.len()
    &&& table_fits(zip_table(syms, lens))
    &&& data.len() <= u32::MAX
    &&& forall|i: int|
        0 <= i < offsets.len() ==> offsets[i] <= #[trigger] layout_end(offsets, data, i) <= data.len()
    &&& forall|i: int|
        0 <= i < offsets.len() ==> codes_complete(#[trigger] layout_codes(offsets, data, i))
    &&& forall|i: int|
        0 <= i < offsets.len() ==> valid_utf8(
            fsst_decompressed(zip_table(syms, lens), #[trigger] layout_codes(offsets, data, i)),
        )
}

/// The strings a compressed layout holds.
pub open spec fn layout_strings(
    syms: Seq<[u8; 8]>,
    lens: Seq<u8>,
    offsets: Seq<u32>,
    data: Seq<u8>,
) -> Seq<Seq<char>> {
    Seq::new(
        offsets.len(),
        |i: int| decode_utf8(fsst_decompressed(zip_table(syms, lens), layout_codes(offsets, data, i))),
    )
}

impl FsstStrVec {
    pub open spec fn well_formed(self) -> bool {
        layout_well_formed(self.raw().0, self.raw().1, self.raw().2, self.raw().3)
    }

    #[verifier::type_invariant]
    pub open spec fn inv(self) -> bool {
        self.well_formed()
    }
}

/// The UTF-8 bytes of each text.
pub open spec fn utf8_all(ss: Seq<Seq<char>>) -> Seq<Seq<u8>> {
    ss.map_values(|s: Seq<char>| encode_utf8(s))
}

/// The byte strings laid end to end.
pub open spec fn concat_all(items: Seq<Seq<u8>>) -> Seq<u8>
    decreases items.len(),
{
    if items.len() == 0 {
        Seq::empty()
    } else {
        concat_all(items.drop_last()) + items.last()
    }
}

/// The table trained on the texts, and each text compressed with it.
pub open spec fn compressed_items(ss: Seq<Seq<char>>) -> Seq<Seq<u8>> {
    ss.map_values(|s: Seq<char>| fsst_compressed(trained_table(utf8_all(ss)), encode_utf8(s)))
}

/// The stored parts `from_strings` produces: the trained table's symbols and
/// lengths, where each text's codes start, and all codes end to end.
pub open spec fn compressed_layout(ss: Seq<Seq<char>>) -> (Seq<[u8; 8]>, Seq<u8>, Seq<u32>, Seq<u8>) {
    let table = trained_table(utf8_all(ss));
    let items = compressed_items(ss);
    (
        table.map_values(|e: ([u8; 8], u8)| e.0),
        table.map_values(|e: ([u8; 8], u8)| e.1),
        Seq::new(ss.len(), |i: int| concat_all(items.take(i)).len() as u32),
        concat_all(items),
    )
}

impl View for FsstStrVec {
    type V = Seq<Seq<char>>;

    open spec fn view(&self) -> Seq<Seq<char>> {
        layout_strings(self.raw().0, self.raw().1, self.raw().2, self.raw().3)
    }
}

impl FsstStrVec {
    /// Train FSST on `strings` and build the compressed vector.
    pub fn from_strings(strings: &[&str]) -> (r: Self)
        requires
            2 * total_bytes(strings@.map_values(|s: &str| s@)) <= u32::MAX,
        ensures
            r@ == strings@.map_values(|s: &str| s@),
            r.raw() == compressed_layout(strings@.map_values(|s: &str| s@)),
    {
        let n = strings.len();
        let mut sample: Vec<&[u8]> = Vec::new();
        for k in 0..n
            invariant
                n == strings@.len(),
                sample@.len() == k,
                forall|j: int| 0 <= j < k ==> #[trigger] sample@[j]@ == encode_utf8(strings@[j]@),
        {
            sample.push(strings[k].as_bytes());
        }
        let ghost sv = strings@.map_values(|s: &str| s@);
        assert(sample@.map_values(|s: &[u8]| s@) =~= utf8_all(sv));
        let compressor = train_compressor(&sample);
        let dict_syms = compressor_symbols(&compressor);
        let dict_lens = compressor_lengths(&compressor);
        let ghost table = compressor_table(compressor);
        let ghost items = compressed_items(sv);
        assert(zip_table(dict_syms@, dict_lens@) =~= table);
        assert(items.take(0) =~= Seq::<Seq<u8>>::empty());
        let mut offsets: Vec<u32> = Vec::new();
        let mut data: Vec<u8> = Vec::new();
        for k in 0..n
            invariant
                n == strings@.len(),
                sv == strings@.map_values(|s: &str| s@),
                2 * total_bytes(sv) <= u32::MAX,
                table == compressor_table(compressor),
                zip_table(dict_syms@, dict_lens@) == table,
                table_fits(table),
                table == trained_table(utf8_all(sv)),
                items == compressed_items(sv),
                data@ == concat_all(items.take(k as int)),
                forall|i: int| 0 <= i < k ==> #[trigger] offsets@[i] == concat_all(items.take(i)).len(),
                offsets@.len() == k,
                data@.len() <= 2 * total_bytes(sv.take(k as int)),
                forall|i: int| 0 <= i < k ==> offsets@[i] <= #[trigger] layout_end(offsets@, data@, i) <= data@.len(),
                forall|i: int| 0 <= i < k ==>
                    fsst_decompressed(table, #[trigger] data@.subrange(offsets@[i] as int, layout_end(offsets@, data@, i)))
                        == encode_utf8(strings@[i]@),
                forall|i: int| 0 <= i < k ==>
                    codes_complete(#[trigger] data@.subrange(offsets@[i] as int, layout_end(offsets@, data@, i))),
        {
            proof {
                lemma_total_bytes_step(sv, k as int);
                assert(sv[k as int] == strings@[k as int]@);
            }
            let ghost old_offsets = offsets@;
            let ghost old_data = data@;
            offsets.push(data.len() as u32);
            let codes = compress(&compressor, strings[k].as_bytes());
            Self::append_bytes(&mut data, &codes);
            proof {
                assert(items.take(k + 1).drop_last() =~= items.take(k as int));
                assert(items[k as int] == codes@);
                assert forall|i: int| 0 <= i < k + 1 implies offsets@[i] <= #[trigger] layout_end(offsets@, data@, i) <= data@.len()
                    && data@.subrange(offsets@[i] as int, layout_end(offsets@, data@, i))
                        == (if i < k { old_data.subrange(old_offsets[i] as int, layout_end(old_offsets, old_data, i)) } else { codes@ }) by {
                    if i < k {
                        assert(data@.subrange(offsets@[i] as int, layout_end(offsets@, data@, i)) =~=
                            old_data.subrange(old_offsets[i] as int, layout_end(old_offsets, old_data, i)));
                    } else {
                        assert(data@.subrange(offsets@[i] as int, layout_end(offsets@, data@, i)) =~= codes@);
                    }
                }
            }
        }
        proof {
            assert(strings@.take(n as int) =~= strings@);
            assert(sv.take(n as int) =~= sv);
            assert forall|i: int| 0 <= i < n implies #[trigger] layout_codes(offsets@, data@, i)
                == data@.subrange(offsets@[i] as int, layout_end(offsets@, data@, i)) by {}
            assert forall|i: int| 0 <= i < n implies valid_utf8(
                fsst_decompressed(zip_table(dict_syms@, dict_lens@), #[trigger] layout_codes(offsets@, data@, i))) by {
                assert(layout_codes(offsets@, data@, i) == data@.subrange(offsets@[i] as int, layout_end(offsets@, data@, i)));
            }
            assert(layout_strings(dict_syms@, dict_lens@, offsets@, data@) =~= strings@.map_values(|s: &str| s@)) by {
                assert forall|i: int| 0 <= i < n implies #[trigger] layout_strings(dict_syms@, dict_lens@, offsets@, data@)[i]
                    == strings@[i]@ by {
                    assert(layout_codes(offsets@, data@, i) == data@.subrange(offsets@[i] as int, layout_end(offsets@, data@, i)));
                }
            }
        }
        proof {
            assert(items.take(n as int) =~= items);
            let layout = compressed_layout(sv);
            assert(dict_syms@ =~= layout.0);
            assert(dict_lens@ =~= layout.1);
            assert(offsets@ =~= layout.2);
        }
        let r = FsstStrVec { dict_syms, dict_lens, offsets, data };
        r
    }

    fn append_bytes(data: &mut Vec<u8>, more: &Vec<u8>)
        ensures
            final(data)@ == old(data)@ + more@,
    {
        let m = more.len();
        for j in 0..m
            invariant
                m == more@.len(),
                data@ == old(data)@ + more@.take(j as int),
        {
            data.push(more[j]);
            assert(more@.take(j + 1) =~= more@.take(j as int).push(more@[j as int]));
        }
        assert(more@.take(m as int) =~= more@);
    }

    /// Number of strings
    pub fn len(&self) -> (n: usize)
        ensures
            n == self@.len(),
    {
        self.offsets.len()
    }

    /// Random access: decode item i into an owned String.
    pub fn get(&self, i: usize) -> (r: Option<String>)
        ensures
            i < self@.len() ==> (r matches Some(s) && s@ == self@[i as int]),
            i >= self@.len() ==> r is None,
    {
        proof {
            use_type_invariant(self);
        }
        if i >= self.offsets.len() {
            return None;
        }
        let start = self.offsets[i] as usize;
        let end = if i + 1 < self.offsets.len() {
            self.offsets[i + 1] as usize
        } else {
            self.data.len()
        };
        assert(layout_end(self.offsets@, self.data@, i as int) == end);
        let codes = slice_subrange(self.data.as_slice(), start, end);
        assert(codes@ == layout_codes(self.offsets@, self.data@, i as int));
        let bytes = decompress(&self.dict_syms, &self.dict_lens, codes);
        string_from_utf8(bytes)
    }
}

/// Whether every escape code is followed by its byte.
pub fn check_codes(codes: &[u8]) -> (r: bool)
    ensures
        r == codes_complete(codes@),
{
    let n = codes.len();
    let mut i: usize = 0;
    assert(codes@.skip(0) =~= codes@);
    while i < n
        invariant
            i <= n,
            n == codes@.len(),
            codes_complete(codes@.skip(i as int)) == codes_complete(codes@),
        decreases n - i,
    {
        let ghost rest = codes@.skip(i as int);
        assert(rest[0] == codes@[i as int]);
        if codes[i] == ESCAPE_CODE {
            if i + 1 >= n {
                return false;
            }
            assert(rest.skip(2) =~= codes@.skip(i + 2));
            i = i + 2;
        } else {
            assert(rest.skip(1) =~= codes@.skip(i + 1));
            i = i + 1;
        }
    }
    assert(codes@.skip(i as int) =~= Seq::<u8>::empty());
    true
}

impl FsstStrVec {
    /// The stored parts: symbols, symbol lengths, item offsets and codes.
    pub closed spec fn raw(self) -> (Seq<[u8; 8]>, Seq<u8>, Seq<u32>, Seq<u8>) {
        (self.dict_syms@, self.dict_lens@, self.offsets@, self.data@)
    }

    /// The stored parts, for writing them out.
    pub fn raw_parts(&self) -> (r: (&Vec<[u8; 8]>, &Vec<u8>, &Vec<u32>, &Vec<u8>))
        ensures
            (r.0@, r.1@, r.2@, r.3@) == self.raw(),
    {
        (&self.dict_syms, &self.dict_lens, &self.offsets, &self.data)
    }

    /// Rebuilds a vector from stored parts, when they are well formed.
    pub fn from_raw_parts(syms: Vec<[u8; 8]>, lens: Vec<u8>, offsets: Vec<u32>, data: Vec<u8>) -> (r: Option<Self>)
        ensures
            r is Some <==> layout_well_formed(syms@, lens@, offsets@, data@),
            r matches Some(v) ==> v.raw() == (syms@, lens@, offsets@, data@),
    {
        if syms.len() != lens.len() || syms.len() > 255 || data.len() > 4294967295 {
            return None;
        }
        let nsym = lens.len();
        for j in 0..nsym
            invariant
                nsym == lens@.len(),
                syms@.len() == lens@.len(),
                forall|k: int| 0 <= k < j ==> lens@[k] <= 8,
        {
            if lens[j] > 8 {
                assert(zip_table(syms@, lens@)[j as int].1 == lens@[j as int]);
                return None;
            }
        }
        assert(table_fits(zip_table(syms@, lens@)));
        let n = offsets.len();
        for i in 0..n
            invariant
                n == offsets@.len(),
                syms@.len() == lens@.len(),
                table_fits(zip_table(syms@, lens@)),
                data@.len() <= u32::MAX,
                forall|k: int| 0 <= k < i ==> offsets@[k] <= #[trigger] layout_end(offsets@, data@, k) <= data@.len(),
                forall|k: int| 0 <= k < i ==> codes_complete(#[trigger] layout_codes(offsets@, data@, k)),
                forall|k: int| 0 <= k < i ==> valid_utf8(
                    fsst_decompressed(zip_table(syms@, lens@), #[trigger] layout_codes(offsets@, data@, k)),
                ),
        {
            let start = offsets[i] as usize;
            let end = if i + 1 < n { offsets[i + 1] as usize } else { data.len() };
            assert(end == layout_end(offsets@, data@, i as int));
            if start > end || end > data.len() {
                return None;
            }
            let codes = slice_subrange(data.as_slice(), start, end);
            assert(codes@ == layout_codes(offsets@, data@, i as int));
            if !check_codes(codes) {
                return None;
            }
            let bytes = decompress(&syms, &lens, codes);
            if string_from_utf8(bytes).is_none() {
                return None;
            }
        }
        Some(FsstStrVec { dict_syms: syms, dict_lens: lens, offsets, data })
    }
}

} // verus!
