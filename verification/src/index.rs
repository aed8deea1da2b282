//! Documents, the search index, and its byte form.
use vstd::prelude::*;
use crate::strvec::{FsstStrVec, layout_well_formed};
use crate::fstmap::{built_map, fst_built, fst_entries, keys_increasing, build_fst, all_entries, pairs_view};

verus! {

/// A document as it is handed to the index builder.
pub struct Document {
    pub title: String,
    pub category: String,
    pub href: String,
    pub body: String,
    pub keywords: Option<Vec<String>>,
}

/// Why an index could not be written or read.
#[derive(Debug, PartialEq, Eq)]
pub enum IndexError {
    /// The serializer refused the index.
    Encode,
    /// The bytes are not an index.
    Decode,
    /// The document strings do not decompress to UTF-8 text.
    Strings,
    /// The keyword map's keys are not in strictly increasing byte order.
    KeywordMap,
    /// The keyword map names a keyword with no entry.
    KeywordNumber,
}

/// The postings of a keyword table: for each keyword, (document, score) pairs.
pub open spec fn postings_view(v: Seq<Vec<(usize, u8)>>) -> Seq<Seq<(usize, u8)>> {
    v.map_values(|e: Vec<(usize, u8)>| e@)
}

/// The stored parts of an index: the keyword map's (key, keyword number)
/// pairs in key order, string symbols, symbol lengths, string offsets, string
/// codes, postings.
pub type IndexParts = (Seq<(Seq<u8>, u64)>, Seq<[u8; 8]>, Seq<u8>, Seq<u32>, Seq<u8>, Seq<Seq<(usize, u8)>>);

/// The bytes `postcard::to_allocvec` writes for the stored parts of an index
/// (the keyword pairs, then the string vector's four fields, then the postings).
pub uninterp spec fn postcard_encoding(parts: IndexParts) -> Seq<u8>;

/// What `postcard::from_bytes` reads as the stored parts of an index.
pub uninterp spec fn postcard_decoding(bytes: Seq<u8>) -> Option<IndexParts>;

/// Serializes the stored parts of an index.
/// Calls `postcard::to_allocvec` on the tuple of parts, which postcard writes
/// as it writes a struct with those fields. The bytes are a function of the
/// parts, serializing into a growable vector of these types cannot fail, and
/// the output holds at least the length prefix of the first sequence.
#[verifier::external_body]
fn encode_parts(
    keywords: &Vec<(Vec<u8>, u64)>,
    syms: &Vec<[u8; 8]>,
    lens: &Vec<u8>,
    offsets: &Vec<u32>,
    data: &Vec<u8>,
    postings: &Vec<Vec<(usize, u8)>>,
) -> (r: Option<Vec<u8>>)
    ensures
        r is Some,
        r matches Some(b) ==> b@.len() > 0,
        r matches Some(b) ==> b@ == postcard_encoding(
            (pairs_view(keywords@), syms@, lens@, offsets@, data@, postings_view(postings@)),
        ),
{
    postcard::to_allocvec(&(keywords, (syms, lens, offsets, data), postings)).ok()
}

/// The stored parts of an index, as owned vectors.
pub type RawParts = (Vec<(Vec<u8>, u64)>, Vec<[u8; 8]>, Vec<u8>, Vec<u32>, Vec<u8>, Vec<Vec<(usize, u8)>>);

/// The parts owned vectors stand for.
pub open spec fn raw_parts_view(p: RawParts) -> IndexParts {
    (pairs_view(p.0@), p.1@, p.2@, p.3@, p.4@, postings_view(p.5@))
}

/// Deserializes the stored parts of an index.
/// Calls `postcard::from_bytes`, which ignores bytes left over after the parts.
/// Claimed of it: the result is a function of the bytes, and it reads back
/// exactly the parts that `to_allocvec` wrote.
#[verifier::external_body]
fn decode_parts(bytes: &[u8]) -> (r: Option<RawParts>)
    ensures
        r is Some <==> postcard_decoding(bytes@) is Some,
        r matches Some(p) ==> postcard_decoding(bytes@) == Some(raw_parts_view(p)),
        forall|parts: IndexParts| #[trigger] postcard_encoding(parts) == bytes@ ==> r is Some && raw_parts_view(r.unwrap()) == parts,
{
    let parsed: Result<(Vec<(Vec<u8>, u64)>, (Vec<[u8; 8]>, Vec<u8>, Vec<u32>, Vec<u8>), Vec<Vec<(usize, u8)>>), _> =
        postcard::from_bytes(bytes);
    match parsed {
        Ok((keys, (syms, lens, offsets, data), postings)) => Some((keys, syms, lens, offsets, data, postings)),
        Err(_) => None,
    }
}

/// Every keyword number names a posting list.
pub open spec fn keyword_numbers_in_range(pairs: Seq<(Seq<u8>, u64)>, postings_len: nat) -> bool {
    forall|i: int| 0 <= i < pairs.len() ==> #[trigger] pairs[i].1 < postings_len
}

/// Stored parts from which an index can be read and searched.
pub open spec fn parts_well_formed(parts: IndexParts) -> bool {
    &&& keys_increasing(parts.0)
    &&& keyword_numbers_in_range(parts.0, parts.5.len())
    &&& layout_well_formed(parts.1, parts.2, parts.3, parts.4)
}

/// A search index: an FST from keywords to keyword numbers, the documents'
/// strings (title, category, href, body of each document in turn), and for
/// each keyword number the documents it occurs in with their scores.
pub struct Index {
    fst: Vec<u8>,
    document_strings: FsstStrVec,
    keyword_to_documents: Vec<Vec<(usize, u8)>>,
}

impl Index {
    /// The stored parts of the index.
    pub closed spec fn parts(self) -> IndexParts {
        let raw = self.document_strings.raw();
        (fst_entries(self.fst@), raw.0, raw.1, raw.2, raw.3, postings_view(self.keyword_to_documents@))
    }

    pub closed spec fn well_formed(self) -> bool {
        &&& built_map(self.fst@)
        &&& parts_well_formed(self.parts())
    }

    #[verifier::type_invariant]
    pub open spec fn inv(self) -> bool {
        self.well_formed()
    }

    /// The keyword map's bytes.
    pub closed spec fn fst_bytes(self) -> Seq<u8> {
        self.fst@
    }

    /// The documents' strings.
    pub closed spec fn strings(self) -> Seq<Seq<char>> {
        self.document_strings@
    }

    /// The postings, by keyword number.
    pub closed spec fn postings(self) -> Seq<Seq<(usize, u8)>> {
        postings_view(self.keyword_to_documents@)
    }

    /// The bytes `to_bytes` writes for this index.
    pub open spec fn encoding(self) -> Seq<u8> {
        postcard_encoding(self.parts())
    }

    /// What the parts of a well-formed index fix: its keyword map (bytes and
    /// pairs), its strings and its postings.
    pub proof fn lemma_parts_fix(self, other: Index)
        requires
            self.inv(),
            other.inv(),
            self.parts() == other.parts(),
        ensures
            self.fst_bytes() == other.fst_bytes(),
            self.strings() == other.strings(),
            self.postings() == other.postings(),
            fst_entries(self.fst_bytes()) == self.parts().0,
    {
    }

    /// Assembles an index from parts that fit together.
    pub(crate) fn from_parts(
        fst: Vec<u8>,
        document_strings: FsstStrVec,
        keyword_to_documents: Vec<Vec<(usize, u8)>>,
    ) -> (r: Self)
        requires
            built_map(fst@),
            keyword_numbers_in_range(fst_entries(fst@), keyword_to_documents@.len()),
        ensures
            r.fst_bytes() == fst@,
            r.strings() == document_strings@,
            r.postings() == postings_view(keyword_to_documents@),
            r.parts() == (
                fst_entries(fst@),
                document_strings.raw().0,
                document_strings.raw().1,
                document_strings.raw().2,
                document_strings.raw().3,
                postings_view(keyword_to_documents@),
            ),
    {
        proof {
            use_type_invariant(&document_strings);
        }
        Index { fst, document_strings, keyword_to_documents }
    }

    /// Assembles an index from the keyword map's (key, keyword number) pairs,
    /// the documents' strings and the postings, when the keys are in strictly
    /// increasing byte order and every keyword number has a posting list.
    pub fn new(
        keywords: Vec<(Vec<u8>, u64)>,
        document_strings: FsstStrVec,
        keyword_to_documents: Vec<Vec<(usize, u8)>>,
    ) -> (r: Result<Self, IndexError>)
        ensures
            r is Ok <==> keys_increasing(pairs_view(keywords@)) && keyword_numbers_in_range(
                pairs_view(keywords@),
                keyword_to_documents@.len(),
            ),
            !keys_increasing(pairs_view(keywords@)) ==> r == Err::<Self, IndexError>(IndexError::KeywordMap),
            keys_increasing(pairs_view(keywords@)) && !keyword_numbers_in_range(
                pairs_view(keywords@),
                keyword_to_documents@.len(),
            ) ==> r == Err::<Self, IndexError>(IndexError::KeywordNumber),
            r matches Ok(i) ==> {
                &&& fst_entries(i.fst_bytes()) == pairs_view(keywords@)
                &&& i.fst_bytes() == fst_built(pairs_view(keywords@))
                &&& i.strings() == document_strings@
                &&& i.postings() == postings_view(keyword_to_documents@)
            },
    {
        let fst = match build_fst(&keywords) {
            Some(b) => b,
            None => return Err(IndexError::KeywordMap),
        };
        if !numbers_in_range(&keywords, keyword_to_documents.len()) {
            return Err(IndexError::KeywordNumber);
        }
        Ok(Index::from_parts(fst, document_strings, keyword_to_documents))
    }

    /// The documents' strings.
    pub fn document_strings(&self) -> (r: &FsstStrVec)
        ensures
            r@ == self.strings(),
    {
        &self.document_strings
    }

    /// Number of keywords with postings.
    pub fn keyword_count(&self) -> (n: usize)
        ensures
            n == self.postings().len(),
    {
        self.keyword_to_documents.len()
    }

    pub(crate) fn fst_ref(&self) -> (r: &Vec<u8>)
        ensures
            r@ == self.fst_bytes(),
            built_map(r@),
            keyword_numbers_in_range(fst_entries(r@), self.postings().len()),
    {
        proof {
            use_type_invariant(self);
        }
        &self.fst
    }

    pub(crate) fn postings_ref(&self) -> (r: &Vec<Vec<(usize, u8)>>)
        ensures
            postings_view(r@) == self.postings(),
    {
        &self.keyword_to_documents
    }

    /// Writes the index as bytes.
    pub fn to_bytes(&self) -> (r: Result<Vec<u8>, IndexError>)
        ensures
            r is Ok,
            r matches Ok(b) ==> b@ == self.encoding() && b@.len() > 0,
    {
        proof {
            use_type_invariant(self);
        }
        let keywords = all_entries(self.fst.as_slice());
        let (syms, lens, offsets, data) = self.document_strings.raw_parts();
        match encode_parts(&keywords, syms, lens, offsets, data, &self.keyword_to_documents) {
            Some(b) => Ok(b),
            None => Err(IndexError::Encode),
        }
    }

    /// Reads an index from bytes. The index is accepted only if its strings
    /// decompress to UTF-8 text, its keywords are in strictly increasing order,
    /// and every keyword number has postings; reading what `to_bytes` wrote gives
    /// back the same index.
    pub fn from_bytes(bytes: &[u8]) -> (r: Result<Self, IndexError>)
        ensures
            r is Ok <==> (postcard_decoding(bytes@) matches Some(p) && parts_well_formed(p)),
            r matches Ok(i) ==> Some(i.parts()) == postcard_decoding(bytes@),
            postcard_decoding(bytes@) is None ==> r == Err::<Self, IndexError>(IndexError::Decode),
            postcard_decoding(bytes@) matches Some(p) && !layout_well_formed(p.1, p.2, p.3, p.4)
                ==> r == Err::<Self, IndexError>(IndexError::Strings),
            postcard_decoding(bytes@) matches Some(p) && layout_well_formed(p.1, p.2, p.3, p.4)
                && !keys_increasing(p.0) ==> r == Err::<Self, IndexError>(IndexError::KeywordMap),
            postcard_decoding(bytes@) matches Some(p) && layout_well_formed(p.1, p.2, p.3, p.4)
                && keys_increasing(p.0) && !keyword_numbers_in_range(p.0, p.5.len())
                ==> r == Err::<Self, IndexError>(IndexError::KeywordNumber),
            forall|i: Index| #[trigger] i.encoding() == bytes@ && i.inv() ==>
                (r matches Ok(j) && j.parts() == i.parts() && j.fst_bytes() == i.fst_bytes()
                    && j.strings() == i.strings() && j.postings() == i.postings()),
    {
        let decoded = decode_parts(bytes);
        let (keys, syms, lens, offsets, data, postings) = match decoded {
            Some(p) => p,
            None => return Err(IndexError::Decode),
        };
        let ghost parts = (pairs_view(keys@), syms@, lens@, offsets@, data@, postings_view(postings@));
        assert(forall|i: Index| #[trigger] i.encoding() == bytes@ ==> i.parts() == parts);
        let document_strings = match FsstStrVec::from_raw_parts(syms, lens, offsets, data) {
            Some(v) => v,
            None => return Err(IndexError::Strings),
        };
        let fst = match build_fst(&keys) {
            Some(b) => b,
            None => return Err(IndexError::KeywordMap),
        };
        if !numbers_in_range(&keys, postings.len()) {
            return Err(IndexError::KeywordNumber);
        }
        let r = Index::from_parts(fst, document_strings, postings);
        assert(r.parts() == parts);
        proof {
            assert forall|i: Index| #[trigger] i.encoding() == bytes@ && i.inv() implies
                (r.fst_bytes() == i.fst_bytes() && r.strings() == i.strings() && r.postings() == i.postings()) by {
                r.lemma_parts_fix(i);
            }
        }
        Ok(r)
    }
}

/// Whether every keyword number names one of `n` posting lists.
fn numbers_in_range(keywords: &Vec<(Vec<u8>, u64)>, n: usize) -> (r: bool)
    ensures
        r == keyword_numbers_in_range(pairs_view(keywords@), n as nat),
{
    let m = keywords.len();
    for k in 0..m
        invariant
            m == keywords@.len(),
            forall|j: int| 0 <= j < k ==> #[trigger] pairs_view(keywords@)[j].1 < n,
    {
        assert(pairs_view(keywords@)[k as int].1 == keywords@[k as int].1);
        if keywords[k].1 >= n as u64 {
            return false;
        }
    }
    true
}

} // verus!
