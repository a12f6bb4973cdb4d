//! The binary format of catalogs.
//!
//! A catalog file holds the bytes `SPKCAT01`, the predicates, and the values. Every count is a
//! little-endian `u32`; a text is its length in bytes and its UTF-8 bytes. A predicate is its name
//! and its arity, with `u32::MAX` for an unknown arity. A value is a tag byte, zero for a number,
//! one for a string, two for a symbol, and the number or the text.
use vstd::bytes::*;
use vstd::prelude::*;
use vstd::string::*;
use vstd::utf8::*;

use crate::ast::ConstantView;
use crate::catalog;
use crate::catalog::{
    CatalogError, CatalogErrorView, CatalogView, InternedValue, PredicateCatalog, PredicateId,
    PredicateView, ProgramCatalog, ValueCatalog, ValueId,
};

verus! {

/// A failure to write or read a catalog, seen as plain data.
#[verifier::ext_equal]
pub enum CatalogIoErrorView {
    UnexpectedEnd,
    Catalog(CatalogErrorView),
    Invalid(Seq<char>),
}

/// A failure to write or read a catalog.
#[derive(Debug, Clone, PartialEq, Eq)]
pub enum CatalogIoError {
    /// The bytes end before the catalog does.
    UnexpectedEnd,
    Catalog(CatalogError),
    Invalid(&'static str),
}

impl View for CatalogIoError {
    type V = CatalogIoErrorView;

    open spec fn view(&self) -> CatalogIoErrorView {
        match self {
            CatalogIoError::UnexpectedEnd => CatalogIoErrorView::UnexpectedEnd,
            CatalogIoError::Catalog(error) => CatalogIoErrorView::Catalog(error@),
            CatalogIoError::Invalid(message) => CatalogIoErrorView::Invalid(message@),
        }
    }
}

impl CatalogIoError {
    pub fn message(&self) -> (message: String)
        ensures
            message@ == match self@ {
                CatalogIoErrorView::UnexpectedEnd => "failed to fill whole buffer"@,
                CatalogIoErrorView::Catalog(error) => catalog::catalog_error_text(error),
                CatalogIoErrorView::Invalid(text) => text,
            },
    {
        match self {
            CatalogIoError::UnexpectedEnd => "failed to fill whole buffer".to_owned(),
            CatalogIoError::Catalog(error) => error.message(),
            CatalogIoError::Invalid(text) => {
                let mut message = String::new();
                message.append(text);
                assert(Seq::<char>::empty() + text@ =~= text@);
                message
            },
        }
    }
}

/// Bytes, or what prevents them.
pub type Encoded = Result<Seq<u8>, CatalogIoErrorView>;

/// The first bytes of a catalog.
pub open spec fn header() -> Seq<u8> {
    seq![83u8, 80u8, 75u8, 67u8, 65u8, 84u8, 48u8, 49u8]
}

/// Bytes, and more bytes after them.
pub open spec fn after(first: Seq<u8>, rest: Encoded) -> Encoded {
    match rest {
        Ok(bytes) => Ok(first + bytes),
        Err(error) => Err(error),
    }
}

/// Some bytes, and what is encoded after them.
pub open spec fn chain(first: Encoded, rest: Encoded) -> Encoded {
    match first {
        Ok(bytes) => after(bytes, rest),
        Err(error) => Err(error),
    }
}

pub open spec fn encode_count(count: nat) -> Encoded {
    if count <= u32::MAX {
        Ok(spec_u32_to_le_bytes(count as u32))
    } else {
        Err(CatalogIoErrorView::Invalid("catalog is too large"@))
    }
}

pub open spec fn encode_text(text: Seq<char>) -> Encoded {
    chain(encode_count(encode_utf8(text).len()), Ok(encode_utf8(text)))
}

pub open spec fn encode_arity(arity: Option<usize>) -> Encoded {
    match arity {
        None => Ok(spec_u32_to_le_bytes(u32::MAX)),
        Some(arity) => if arity < u32::MAX {
            Ok(spec_u32_to_le_bytes(arity as u32))
        } else {
            Err(CatalogIoErrorView::Invalid("predicate arity is too large"@))
        },
    }
}

pub open spec fn encode_predicate(predicate: PredicateView) -> Encoded {
    chain(encode_text(predicate.0), encode_arity(predicate.1))
}

pub open spec fn encode_value(value: ConstantView) -> Encoded {
    match value {
        ConstantView::U32(number) => Ok(seq![0u8] + spec_u32_to_le_bytes(number)),
        ConstantView::String(text) => after(seq![1u8], encode_text(text)),
        ConstantView::Symbol(text) => after(seq![2u8], encode_text(text)),
    }
}

/// The predicates from a position on.
pub open spec fn encode_predicates(predicates: Seq<PredicateView>, from: nat) -> Encoded
    decreases predicates.len() - from,
{
    if from >= predicates.len() {
        Ok(Seq::empty())
    } else {
        chain(encode_predicate(predicates[from as int]), encode_predicates(predicates, from + 1))
    }
}

/// The values from a position on.
pub open spec fn encode_values(values: Seq<ConstantView>, from: nat) -> Encoded
    decreases values.len() - from,
{
    if from >= values.len() {
        Ok(Seq::empty())
    } else {
        chain(encode_value(values[from as int]), encode_values(values, from + 1))
    }
}

/// The bytes of a catalog.
pub open spec fn encode_catalog(catalog: CatalogView) -> Encoded {
    after(
        header(),
        chain(
            encode_count(catalog.predicates.len()),
            chain(
                encode_predicates(catalog.predicates, 0),
                chain(
                    encode_count(catalog.values.len()),
                    encode_values(catalog.values, 0),
                ),
            ),
        ),
    )
}

/// What is read at a position, and the position after it.
pub type Decoded<T> = Result<(T, int), CatalogIoErrorView>;

pub open spec fn decode_u32(bytes: Seq<u8>, pos: int) -> Decoded<u32> {
    if 0 <= pos && pos + 4 <= bytes.len() {
        Ok((spec_u32_from_le_bytes(bytes.subrange(pos, pos + 4)), pos + 4))
    } else {
        Err(CatalogIoErrorView::UnexpectedEnd)
    }
}

pub open spec fn decode_text(bytes: Seq<u8>, pos: int) -> Decoded<Seq<char>> {
    match decode_u32(bytes, pos) {
        Err(error) => Err(error),
        Ok((length, start)) => if start + length > bytes.len() {
            Err(CatalogIoErrorView::UnexpectedEnd)
        } else {
            let text = bytes.subrange(start, start + length);
            if valid_utf8(text) {
                Ok((decode_utf8(text), start + length))
            } else {
                Err(CatalogIoErrorView::Invalid("catalog text is not UTF-8"@))
            }
        },
    }
}

/// Reads predicates, after the predicates `before`.
pub open spec fn decode_predicates(
    bytes: Seq<u8>,
    pos: int,
    count: nat,
    before: Seq<PredicateView>,
) -> Decoded<Seq<PredicateView>>
    decreases count,
{
    if count == 0 {
        Ok((before, pos))
    } else {
        match decode_text(bytes, pos) {
            Err(error) => Err(error),
            Ok((name, after_name)) => match decode_u32(bytes, after_name) {
                Err(error) => Err(error),
                Ok((arity, next)) => {
                    let added = if arity == u32::MAX {
                        catalog::with_name(before, name)
                    } else {
                        catalog::with_arity(before, name, arity as usize)
                    };
                    match added {
                        Err(error) => Err(CatalogIoErrorView::Catalog(error)),
                        Ok((all, _)) => decode_predicates(bytes, next, (count - 1) as nat, all),
                    }
                },
            },
        }
    }
}

pub open spec fn decode_value(bytes: Seq<u8>, pos: int) -> Decoded<ConstantView> {
    if !(0 <= pos < bytes.len()) {
        Err(CatalogIoErrorView::UnexpectedEnd)
    } else if bytes[pos] == 0 {
        match decode_u32(bytes, pos + 1) {
            Err(error) => Err(error),
            Ok((number, next)) => Ok((ConstantView::U32(number), next)),
        }
    } else if bytes[pos] == 1 {
        match decode_text(bytes, pos + 1) {
            Err(error) => Err(error),
            Ok((text, next)) => Ok((ConstantView::String(text), next)),
        }
    } else if bytes[pos] == 2 {
        match decode_text(bytes, pos + 1) {
            Err(error) => Err(error),
            Ok((text, next)) => Ok((ConstantView::Symbol(text), next)),
        }
    } else {
        Err(CatalogIoErrorView::Invalid("unknown catalog value tag"@))
    }
}

/// Reads values, after the values `before`.
pub open spec fn decode_values(
    bytes: Seq<u8>,
    pos: int,
    count: nat,
    before: Seq<ConstantView>,
) -> Decoded<Seq<ConstantView>>
    decreases count,
{
    if count == 0 {
        Ok((before, pos))
    } else {
        match decode_value(bytes, pos) {
            Err(error) => Err(error),
            Ok((value, next)) => match catalog::with_value(before, value) {
                Err(error) => Err(CatalogIoErrorView::Catalog(error)),
                Ok((all, _)) => decode_values(bytes, next, (count - 1) as nat, all),
            },
        }
    }
}

/// The catalog that bytes start with.
pub open spec fn decode_catalog(bytes: Seq<u8>) -> Result<CatalogView, CatalogIoErrorView> {
    if bytes.len() < 8 {
        Err(CatalogIoErrorView::UnexpectedEnd)
    } else if bytes.take(8) != header() {
        Err(CatalogIoErrorView::Invalid("invalid catalog header"@))
    } else {
        match decode_u32(bytes, 8) {
            Err(error) => Err(error),
            Ok((count, start)) => match decode_predicates(
                bytes,
                start,
                count as nat,
                Seq::empty(),
            ) {
                Err(error) => Err(error),
                Ok((predicates, middle)) => match decode_u32(bytes, middle) {
                    Err(error) => Err(error),
                    Ok((count, start)) => match decode_values(
                        bytes,
                        start,
                        count as nat,
                        Seq::empty(),
                    ) {
                        Err(error) => Err(error),
                        Ok((values, _)) => Ok(CatalogView { predicates, values }),
                    },
                },
            },
        }
    }
}

/// Whether a step left what was expected: more bytes, or the failure.
spec fn wrote(
    result: Result<(), CatalogIoError>,
    before: Seq<u8>,
    after: Seq<u8>,
    expected: Encoded,
) -> bool {
    match expected {
        Ok(bytes) => result is Ok && after == before + bytes,
        Err(error) => result is Err && result->Err_0@ == error,
    }
}

fn write_bytes(out: &mut Vec<u8>, bytes: &[u8])
    ensures
        final(out)@ == old(out)@ + bytes@,
{
    let ghost before = out@;
    let mut i: usize = 0;
    assert(bytes@.take(0) =~= Seq::empty());
    assert(before + Seq::<u8>::empty() =~= before);
    while i < bytes.len()
        invariant
            i <= bytes@.len(),
            out@ == before + bytes@.take(i as int),
        decreases bytes@.len() - i,
    {
        out.push(bytes[i]);
        i += 1;
        assert(out@ =~= before + bytes@.take(i as int));
    }
    assert(bytes@.take(bytes@.len() as int) =~= bytes@);
}

fn write_u32(out: &mut Vec<u8>, value: u32)
    ensures
        final(out)@ == old(out)@ + spec_u32_to_le_bytes(value),
{
    let bytes = u32_to_le_bytes(value);
    write_bytes(out, bytes.as_slice());
}

fn write_count(out: &mut Vec<u8>, count: usize) -> (result: Result<(), CatalogIoError>)
    ensures
        wrote(result, old(out)@, final(out)@, encode_count(count as nat)),
{
    if count > u32::MAX as usize {
        return Err(CatalogIoError::Invalid("catalog is too large"));
    }
    write_u32(out, count as u32);
    Ok(())
}

fn write_text(out: &mut Vec<u8>, text: &str) -> (result: Result<(), CatalogIoError>)
    ensures
        wrote(result, old(out)@, final(out)@, encode_text(text@)),
{
    let ghost before = out@;
    let bytes = text.as_bytes();
    match write_count(out, bytes.len()) {
        Ok(()) => {
            let ghost counted = out@;
            write_bytes(out, bytes);
            assert(out@ =~= before + (spec_u32_to_le_bytes(bytes@.len() as u32) + bytes@));
            Ok(())
        },
        Err(error) => Err(error),
    }
}

fn write_arity(out: &mut Vec<u8>, arity: Option<usize>) -> (result: Result<(), CatalogIoError>)
    ensures
        wrote(result, old(out)@, final(out)@, encode_arity(arity)),
{
    match arity {
        None => {
            write_u32(out, u32::MAX);
            Ok(())
        },
        Some(arity) => {
            if arity < u32::MAX as usize {
                write_u32(out, arity as u32);
                Ok(())
            } else {
                Err(CatalogIoError::Invalid("predicate arity is too large"))
            }
        },
    }
}

fn write_value(out: &mut Vec<u8>, value: &InternedValue) -> (result: Result<(), CatalogIoError>)
    ensures
        wrote(result, old(out)@, final(out)@, encode_value(value@)),
{
    let ghost before = out@;
    match value {
        InternedValue::U32(number) => {
            out.push(0);
            write_u32(out, *number);
            assert(out@ =~= before + (seq![0u8] + spec_u32_to_le_bytes(*number)));
            Ok(())
        },
        InternedValue::String(text) => {
            out.push(1);
            let result = write_text(out, text.as_str());
            proof {
                if let Ok(bytes) = encode_text(text@) {
                    assert(before.push(1u8) + bytes =~= before + (seq![1u8] + bytes));
                }
            }
            result
        },
        InternedValue::Symbol(text) => {
            out.push(2);
            let result = write_text(out, text.as_str());
            proof {
                if let Ok(bytes) = encode_text(text@) {
                    assert(before.push(2u8) + bytes =~= before + (seq![2u8] + bytes));
                }
            }
            result
        },
    }
}

proof fn lemma_chain_moves(before: Seq<u8>, first: Seq<u8>, rest: Encoded)
    ensures
        after(before, chain(Ok(first), rest)) == after(before + first, rest),
{
    if let Ok(bytes) = rest {
        assert(before + (first + bytes) =~= (before + first) + bytes);
    }
}

fn write_predicates(
    out: &mut Vec<u8>,
    predicates: &PredicateCatalog,
) -> (result: Result<(), CatalogIoError>)
    requires
        predicates.wf(),
    ensures
        wrote(result, old(out)@, final(out)@, encode_predicates(predicates@, 0)),
{
    let ghost start = out@;
    let ghost all = predicates@;
    let mut i: usize = 0;
    while i < predicates.len()
        invariant
            i <= all.len(),
            all == predicates@,
            predicates.wf(),
            start == old(out)@,
            after(start, encode_predicates(all, 0)) == after(
                out@,
                encode_predicates(all, i as nat),
            ),
        decreases all.len() - i,
    {
        let ghost before = out@;
        let ghost rest = encode_predicates(all, (i + 1) as nat);
        let ghost own = encode_predicate(all[i as int]);
        if let Some(metadata) = predicates.get(PredicateId(i as u32)) {
            let ghost name = encode_text(metadata.name@);
            match write_text(out, metadata.name.as_str()) {
                Ok(()) => {},
                Err(error) => {
                    return Err(error);
                },
            }
            match write_arity(out, metadata.arity) {
                Ok(()) => {},
                Err(error) => {
                    return Err(error);
                },
            }
            proof {
                let a = name->Ok_0;
                let b = encode_arity(metadata.arity)->Ok_0;
                assert(out@ =~= before + (a + b));
                lemma_chain_moves(before, a + b, rest);
            }
        }
        i += 1;
    }
    proof {
        assert(out@ + Seq::<u8>::empty() =~= out@);
        if let Ok(bytes) = encode_predicates(all, 0) {
            assert(after(start, encode_predicates(all, 0)) == Ok::<Seq<u8>, CatalogIoErrorView>(
                start + bytes,
            ));
        }
    }
    Ok(())
}

fn write_values(out: &mut Vec<u8>, values: &ValueCatalog) -> (result: Result<(), CatalogIoError>)
    requires
        values.wf(),
    ensures
        wrote(result, old(out)@, final(out)@, encode_values(values@, 0)),
{
    let ghost start = out@;
    let ghost all = values@;
    let mut i: usize = 0;
    while i < values.len()
        invariant
            i <= all.len(),
            all == values@,
            values.wf(),
            start == old(out)@,
            after(start, encode_values(all, 0)) == after(out@, encode_values(all, i as nat)),
        decreases all.len() - i,
    {
        let ghost before = out@;
        let ghost rest = encode_values(all, (i + 1) as nat);
        if let Some(value) = values.get(ValueId(i as u32)) {
            match write_value(out, value) {
                Ok(()) => {},
                Err(error) => {
                    return Err(error);
                },
            }
            proof {
                lemma_chain_moves(before, encode_value(all[i as int])->Ok_0, rest);
            }
        }
        i += 1;
    }
    proof {
        assert(out@ + Seq::<u8>::empty() =~= out@);
    }
    Ok(())
}

/// `String::from_utf8`: the text whose UTF-8 encoding the bytes are, if they are one.
#[verifier::external_body]
fn text_from_utf8(bytes: Vec<u8>) -> (text: Option<String>)
    ensures
        text is Some <==> valid_utf8(bytes@),
        text matches Some(found) ==> encode_utf8(found@) == bytes@,
{
    String::from_utf8(bytes).ok()
}

/// Whether a step read what was expected.
spec fn read<T: View>(
    result: Result<(T, usize), CatalogIoError>,
    expected: Decoded<T::V>,
    length: nat,
) -> bool {
    match result {
        Ok((value, next)) => expected == Ok::<(T::V, int), CatalogIoErrorView>(
            (value@, next as int),
        ) && next <= length,
        Err(error) => expected == Err::<(T::V, int), CatalogIoErrorView>(error@),
    }
}

fn read_u32(bytes: &[u8], pos: usize) -> (result: Result<(u32, usize), CatalogIoError>)
    requires
        pos <= bytes@.len(),
    ensures
        match result {
            Ok((value, next)) => decode_u32(bytes@, pos as int) == Ok::<
                (u32, int),
                CatalogIoErrorView,
            >((value, next as int)) && next <= bytes@.len(),
            Err(error) => decode_u32(bytes@, pos as int) == Err::<(u32, int), CatalogIoErrorView>(
                error@,
            ),
        },
{
    if bytes.len() - pos < 4 {
        return Err(CatalogIoError::UnexpectedEnd);
    }
    let value: u32 = u32_from_le_bytes(vstd::slice::slice_subrange(bytes, pos, pos + 4));
    Ok((value, pos + 4))
}

fn read_string(bytes: &[u8], pos: usize) -> (result: Result<(String, usize), CatalogIoError>)
    requires
        pos <= bytes@.len(),
    ensures
        read(result, decode_text(bytes@, pos as int), bytes@.len()),
{
    let (length, start) = match read_u32(bytes, pos) {
        Ok(found) => found,
        Err(error) => {
            return Err(error);
        },
    };
    let length: usize = length as usize;
    if bytes.len() - start < length {
        return Err(CatalogIoError::UnexpectedEnd);
    }
    let raw = vstd::slice::slice_to_vec(
        vstd::slice::slice_subrange(bytes, start, start + length),
    );
    let ghost view = raw@;
    match text_from_utf8(raw) {
        Some(text) => {
            proof {
                encode_utf8_decode_utf8(text@);
            }
            Ok((text, start + length))
        },
        None => Err(CatalogIoError::Invalid("catalog text is not UTF-8")),
    }
}

fn read_value(bytes: &[u8], pos: usize) -> (result: Result<(InternedValue, usize), CatalogIoError>)
    requires
        pos <= bytes@.len(),
    ensures
        read(result, decode_value(bytes@, pos as int), bytes@.len()),
{
    if pos >= bytes.len() {
        return Err(CatalogIoError::UnexpectedEnd);
    }
    let tag: u8 = bytes[pos];
    if tag == 0 {
        match read_u32(bytes, pos + 1) {
            Ok((number, next)) => Ok((InternedValue::U32(number), next)),
            Err(error) => Err(error),
        }
    } else if tag == 1 {
        match read_string(bytes, pos + 1) {
            Ok((text, next)) => Ok((InternedValue::String(text), next)),
            Err(error) => Err(error),
        }
    } else if tag == 2 {
        match read_string(bytes, pos + 1) {
            Ok((text, next)) => Ok((InternedValue::Symbol(text), next)),
            Err(error) => Err(error),
        }
    } else {
        Err(CatalogIoError::Invalid("unknown catalog value tag"))
    }
}

fn read_predicates(
    bytes: &[u8],
    pos: usize,
    count: u32,
) -> (result: Result<(PredicateCatalog, usize), CatalogIoError>)
    requires
        pos <= bytes@.len(),
    ensures
        read(result, decode_predicates(bytes@, pos as int, count as nat, Seq::empty()), bytes@.len()),
        result matches Ok((predicates, _)) ==> predicates.wf(),
{
    let mut predicates = PredicateCatalog::new();
    let mut at: usize = pos;
    let mut left: u32 = count;
    while left > 0
        invariant
            pos <= at <= bytes@.len(),
            predicates.wf(),
            decode_predicates(bytes@, pos as int, count as nat, Seq::empty()) == decode_predicates(
                bytes@,
                at as int,
                left as nat,
                predicates@,
            ),
        decreases left,
    {
        let (name, after_name) = match read_string(bytes, at) {
            Ok(found) => found,
            Err(error) => {
                return Err(error);
            },
        };
        let (arity, next) = match read_u32(bytes, after_name) {
            Ok(found) => found,
            Err(error) => {
                return Err(error);
            },
        };
        let added = if arity == u32::MAX {
            predicates.intern(name.as_str())
        } else {
            predicates.declare(name.as_str(), arity as usize)
        };
        match added {
            Ok(_) => {},
            Err(error) => {
                return Err(CatalogIoError::Catalog(error));
            },
        }
        at = next;
        left = left - 1;
    }
    Ok((predicates, at))
}

fn read_values(
    bytes: &[u8],
    pos: usize,
    count: u32,
) -> (result: Result<(ValueCatalog, usize), CatalogIoError>)
    requires
        pos <= bytes@.len(),
    ensures
        read(result, decode_values(bytes@, pos as int, count as nat, Seq::empty()), bytes@.len()),
        result matches Ok((values, _)) ==> values.wf(),
{
    let mut values = ValueCatalog::new();
    let mut at: usize = pos;
    let mut left: u32 = count;
    while left > 0
        invariant
            pos <= at <= bytes@.len(),
            values.wf(),
            decode_values(bytes@, pos as int, count as nat, Seq::empty()) == decode_values(
                bytes@,
                at as int,
                left as nat,
                values@,
            ),
        decreases left,
    {
        let (value, next) = match read_value(bytes, at) {
            Ok(found) => found,
            Err(error) => {
                return Err(error);
            },
        };
        match values.intern(value) {
            Ok(_) => {},
            Err(error) => {
                return Err(CatalogIoError::Catalog(error));
            },
        }
        at = next;
        left = left - 1;
    }
    Ok((values, at))
}

impl ProgramCatalog {
    /// Appends the bytes of the catalog. Nothing is appended if the catalog cannot be encoded.
    pub fn write_to(&self, writer: &mut Vec<u8>) -> (result: Result<(), CatalogIoError>)
        requires
            self.wf(),
        ensures
            match encode_catalog(self@) {
                Ok(bytes) => result is Ok && final(writer)@ == old(writer)@ + bytes,
                Err(error) => result is Err && result->Err_0@ == error && final(writer)@ == old(
                    writer,
                )@,
            },
    {
        let mut out: Vec<u8> = Vec::new();
        out.push(83);
        out.push(80);
        out.push(75);
        out.push(67);
        out.push(65);
        out.push(84);
        out.push(48);
        out.push(49);
        assert(out@ =~= header());
        let ghost tail = chain(
            encode_count(self.values@.len()),
            encode_values(self.values@, 0),
        );
        let ghost middle = chain(encode_predicates(self.predicates@, 0), tail);
        let ghost o1 = out@;
        match write_count(&mut out, self.predicates.len()) {
            Ok(()) => {},
            Err(error) => {
                return Err(error);
            },
        }
        proof {
            lemma_chain_moves(o1, encode_count(self.predicates@.len())->Ok_0, middle);
        }
        let ghost o2 = out@;
        match write_predicates(&mut out, &self.predicates) {
            Ok(()) => {},
            Err(error) => {
                return Err(error);
            },
        }
        proof {
            lemma_chain_moves(o2, encode_predicates(self.predicates@, 0)->Ok_0, tail);
        }
        let ghost o3 = out@;
        match write_count(&mut out, self.values.len()) {
            Ok(()) => {},
            Err(error) => {
                return Err(error);
            },
        }
        proof {
            lemma_chain_moves(
                o3,
                encode_count(self.values@.len())->Ok_0,
                encode_values(self.values@, 0),
            );
        }
        match write_values(&mut out, &self.values) {
            Ok(()) => {},
            Err(error) => {
                return Err(error);
            },
        }
        write_bytes(writer, out.as_slice());
        Ok(())
    }

    /// Reads the catalog that bytes start with.
    pub fn read_from(reader: &[u8]) -> (result: Result<Self, CatalogIoError>)
        ensures
            match result {
                Ok(catalog) => catalog.wf() && decode_catalog(reader@) == Ok::<
                    CatalogView,
                    CatalogIoErrorView,
                >(catalog@),
                Err(error) => decode_catalog(reader@) == Err::<CatalogView, CatalogIoErrorView>(
                    error@,
                ),
            },
    {
        if reader.len() < 8 {
            return Err(CatalogIoError::UnexpectedEnd);
        }
        let matches_header = reader[0] == 83 && reader[1] == 80 && reader[2] == 75 && reader[3]
            == 67 && reader[4] == 65 && reader[5] == 84 && reader[6] == 48 && reader[7] == 49;
        proof {
            if matches_header {
                assert(reader@.take(8) =~= header());
            } else if reader@.take(8) == header() {
                assert(forall|i: int| 0 <= i < 8 ==> reader@.take(8)[i] == reader@[i]);
                assert(header()[0] == 83 && header()[1] == 80 && header()[2] == 75 && header()[3]
                    == 67 && header()[4] == 65 && header()[5] == 84 && header()[6] == 48
                    && header()[7] == 49);
            }
        }
        if !matches_header {
            return Err(CatalogIoError::Invalid("invalid catalog header"));
        }
        let (predicate_count, start) = match read_u32(reader, 8) {
            Ok(found) => found,
            Err(error) => {
                return Err(error);
            },
        };
        let (predicates, middle) = match read_predicates(reader, start, predicate_count) {
            Ok(found) => found,
            Err(error) => {
                return Err(error);
            },
        };
        let (value_count, start) = match read_u32(reader, middle) {
            Ok(found) => found,
            Err(error) => {
                return Err(error);
            },
        };
        let (values, _) = match read_values(reader, start, value_count) {
            Ok(found) => found,
            Err(error) => {
                return Err(error);
            },
        };
        Ok(ProgramCatalog { predicates, values })
    }
}

/// Whether bytes hold other bytes at a position.
spec fn holds_at(bytes: Seq<u8>, pos: int, part: Seq<u8>) -> bool {
    0 <= pos && pos + part.len() <= bytes.len() && bytes.subrange(pos, pos + part.len()) == part
}

proof fn lemma_holds_split(bytes: Seq<u8>, pos: int, first: Seq<u8>, rest: Seq<u8>)
    requires
        holds_at(bytes, pos, first + rest),
    ensures
        holds_at(bytes, pos, first),
        holds_at(bytes, pos + first.len(), rest),
{
    let whole = first + rest;
    assert(bytes.subrange(pos, pos + whole.len()) == whole);
    assert forall|i: int| 0 <= i < first.len() implies bytes[pos + i] == first[i] by {
        assert(bytes.subrange(pos, pos + whole.len())[i] == whole[i]);
    }
    assert forall|i: int| 0 <= i < rest.len() implies bytes[pos + first.len() + i] == rest[i] by {
        assert(bytes.subrange(pos, pos + whole.len())[first.len() + i] == whole[first.len() + i]);
    }
    assert(bytes.subrange(pos, pos + first.len()) =~= first);
    assert(bytes.subrange(pos + first.len(), pos + first.len() + rest.len()) =~= rest);
}

proof fn lemma_read_u32(bytes: Seq<u8>, pos: int, value: u32)
    requires
        holds_at(bytes, pos, spec_u32_to_le_bytes(value)),
    ensures
        decode_u32(bytes, pos) == Ok::<(u32, int), CatalogIoErrorView>((value, pos + 4)),
{
    lemma_auto_spec_u32_to_from_le_bytes();
    assert(spec_u32_to_le_bytes(value).len() == 4);
}

proof fn lemma_read_text(bytes: Seq<u8>, pos: int, text: Seq<char>)
    requires
        encode_text(text) is Ok,
        holds_at(bytes, pos, encode_text(text)->Ok_0),
    ensures
        decode_text(bytes, pos) == Ok::<(Seq<char>, int), CatalogIoErrorView>(
            (text, pos + encode_text(text)->Ok_0.len()),
        ),
{
    let raw = encode_utf8(text);
    let count = spec_u32_to_le_bytes(raw.len() as u32);
    lemma_auto_spec_u32_to_from_le_bytes();
    assert(count.len() == 4);
    lemma_holds_split(bytes, pos, count, raw);
    lemma_read_u32(bytes, pos, raw.len() as u32);
    encode_utf8_valid_utf8(text);
    encode_utf8_decode_utf8(text);
}

/// Reading back the predicates that were written, given those already read.
proof fn lemma_read_predicates(bytes: Seq<u8>, pos: int, all: Seq<PredicateView>, from: nat)
    requires
        from <= all.len(),
        all.len() <= u32::MAX + 1,
        catalog::distinct_names(all),
        encode_predicates(all, from) is Ok,
        holds_at(bytes, pos, encode_predicates(all, from)->Ok_0),
    ensures
        decode_predicates(
            bytes,
            pos,
            (all.len() - from) as nat,
            all.take(from as int),
        ) == Ok::<(Seq<PredicateView>, int), CatalogIoErrorView>(
            (all, pos + encode_predicates(all, from)->Ok_0.len()),
        ),
    decreases all.len() - from,
{
    let before = all.take(from as int);
    if from == all.len() {
        assert(before =~= all);
    } else {
        let (name, arity) = all[from as int];
        let own = encode_predicate(all[from as int])->Ok_0;
        let rest = encode_predicates(all, from + 1)->Ok_0;
        let named = encode_text(name)->Ok_0;
        let counted = encode_arity(arity)->Ok_0;
        lemma_holds_split(bytes, pos, own, rest);
        lemma_holds_split(bytes, pos, named, counted);
        lemma_read_text(bytes, pos, name);
        let stored: u32 = match arity {
            None => u32::MAX,
            Some(arity) => arity as u32,
        };
        lemma_read_u32(bytes, pos + named.len(), stored);
        lemma_auto_spec_u32_to_from_le_bytes();
        assert(spec_u32_to_le_bytes(stored).len() == 4);
        catalog::lemma_find_name(before, name);
        if let Some(i) = catalog::find_name(before, name) {
            assert(all[i].0 == before[i].0);
            assert(all[i].0 != all[from as int].0);
        }
        let next = all.take(from as int + 1);
        assert(before.push((name, arity)) =~= next);
        assert(before.push((name, None)).update(from as int, (name, arity)) =~= next);
        if arity is None {
            assert(before.push((name, None)) =~= next);
        }
        lemma_read_predicates(bytes, pos + own.len(), all, from + 1);
    }
}

/// Reading back the values that were written, given those already read.
proof fn lemma_read_values(bytes: Seq<u8>, pos: int, all: Seq<ConstantView>, from: nat)
    requires
        from <= all.len(),
        all.len() <= u32::MAX + 1,
        all.no_duplicates(),
        encode_values(all, from) is Ok,
        holds_at(bytes, pos, encode_values(all, from)->Ok_0),
    ensures
        decode_values(bytes, pos, (all.len() - from) as nat, all.take(from as int)) == Ok::<
            (Seq<ConstantView>, int),
            CatalogIoErrorView,
        >((all, pos + encode_values(all, from)->Ok_0.len())),
    decreases all.len() - from,
{
    let before = all.take(from as int);
    if from == all.len() {
        assert(before =~= all);
    } else {
        let value = all[from as int];
        let own = encode_value(value)->Ok_0;
        let rest = encode_values(all, from + 1)->Ok_0;
        lemma_holds_split(bytes, pos, own, rest);
        lemma_auto_spec_u32_to_from_le_bytes();
        match value {
            ConstantView::U32(number) => {
                let raw = spec_u32_to_le_bytes(number);
                assert(raw.len() == 4);
                lemma_holds_split(bytes, pos, seq![0u8], raw);
                assert(bytes.subrange(pos, pos + 1)[0] == 0u8);
                lemma_read_u32(bytes, pos + 1, number);
            },
            ConstantView::String(text) => {
                let raw = encode_text(text)->Ok_0;
                lemma_holds_split(bytes, pos, seq![1u8], raw);
                assert(bytes.subrange(pos, pos + 1)[0] == 1u8);
                lemma_read_text(bytes, pos + 1, text);
            },
            ConstantView::Symbol(text) => {
                let raw = encode_text(text)->Ok_0;
                lemma_holds_split(bytes, pos, seq![2u8], raw);
                assert(bytes.subrange(pos, pos + 1)[0] == 2u8);
                lemma_read_text(bytes, pos + 1, text);
            },
        }
        catalog::lemma_find_value(before, value);
        if let Some(i) = catalog::find_value(before, value) {
            assert(all[i] == before[i]);
            assert(all[i] != all[from as int]);
        }
        assert(before.push(value) =~= all.take(from as int + 1));
        lemma_read_values(bytes, pos + own.len(), all, from + 1);
    }
}

/// Reading what was written gives back the catalog with every identifier, whatever follows it.
pub proof fn law_catalog_round_trip(catalog: CatalogView, more: Seq<u8>)
    requires
        catalog::distinct_names(catalog.predicates),
        catalog.predicates.len() <= u32::MAX + 1,
        catalog.values.no_duplicates(),
        catalog.values.len() <= u32::MAX + 1,
        encode_catalog(catalog) is Ok,
    ensures
        decode_catalog(encode_catalog(catalog)->Ok_0 + more) == Ok::<
            CatalogView,
            CatalogIoErrorView,
        >(catalog),
{
    let predicates = catalog.predicates;
    let values = catalog.values;
    let count_p = encode_count(predicates.len())->Ok_0;
    let bytes_p = encode_predicates(predicates, 0)->Ok_0;
    let count_v = encode_count(values.len())->Ok_0;
    let bytes_v = encode_values(values, 0)->Ok_0;
    let written = encode_catalog(catalog)->Ok_0;
    let bytes = written + more;
    assert(written == header() + (count_p + (bytes_p + (count_v + bytes_v))));
    assert(bytes.subrange(0, written.len() as int) =~= written);
    assert(holds_at(bytes, 0, written));
    lemma_holds_split(bytes, 0, header(), count_p + (bytes_p + (count_v + bytes_v)));
    assert(bytes.take(8) =~= header());
    lemma_holds_split(bytes, 8, count_p, bytes_p + (count_v + bytes_v));
    lemma_auto_spec_u32_to_from_le_bytes();
    assert(count_p.len() == 4);
    assert(count_v.len() == 4);
    lemma_read_u32(bytes, 8, predicates.len() as u32);
    lemma_holds_split(bytes, 12, bytes_p, count_v + bytes_v);
    lemma_read_predicates(bytes, 12, predicates, 0);
    assert(predicates.take(0) =~= Seq::empty());
    let middle: int = 12 + bytes_p.len() as int;
    lemma_holds_split(bytes, middle, count_v, bytes_v);
    lemma_read_u32(bytes, middle, values.len() as u32);
    lemma_read_values(bytes, middle + 4, values, 0);
    assert(values.take(0) =~= Seq::empty());
}

} // verus!
