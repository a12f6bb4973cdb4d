//! The bytes of a stored catalog, and the arguments of the benchmarks.
use vstd::bytes::*;
use vstd::prelude::*;
use vstd::utf8::*;

use crate::ast::ConstantView;
use crate::benchmark;
use crate::benchmark::{BenchmarkView, ClosureBackend, ClosureConfig, KnownOptions};
use crate::catalog::{CatalogView, PredicateView};
use crate::catalog_io;
use crate::catalog_io::{CatalogIoErrorView, Decoded};
use crate::text;

verus! {

/// A text is stored as the number of its bytes and its UTF-8 bytes.
pub proof fn law_stored_texts(value: Seq<char>)
    ensures
        encode_utf8(value).len() <= u32::MAX ==> catalog_io::encode_text(value) == Ok::<
            Seq<u8>,
            CatalogIoErrorView,
        >(spec_u32_to_le_bytes(encode_utf8(value).len() as u32) + encode_utf8(value)),
        encode_utf8(value).len() > u32::MAX ==> catalog_io::encode_text(value) == Err::<
            Seq<u8>,
            CatalogIoErrorView,
        >(CatalogIoErrorView::Invalid("catalog is too large"@)),
{
}

/// A value is stored as a byte that tells its kind, and then as itself.
pub proof fn law_stored_values(number: u32, value: Seq<char>)
    ensures
        catalog_io::encode_value(ConstantView::U32(number)) == Ok::<Seq<u8>, CatalogIoErrorView>(
            seq![0u8] + spec_u32_to_le_bytes(number),
        ),
        catalog_io::encode_text(value) matches Ok(bytes) ==> {
            &&& catalog_io::encode_value(ConstantView::String(value)) == Ok::<
                Seq<u8>,
                CatalogIoErrorView,
            >(seq![1u8] + bytes)
            &&& catalog_io::encode_value(ConstantView::Symbol(value)) == Ok::<
                Seq<u8>,
                CatalogIoErrorView,
            >(seq![2u8] + bytes)
        },
        catalog_io::encode_text(value) matches Err(error) ==> {
            &&& catalog_io::encode_value(ConstantView::String(value)) == Err::<
                Seq<u8>,
                CatalogIoErrorView,
            >(error)
            &&& catalog_io::encode_value(ConstantView::Symbol(value)) == Err::<
                Seq<u8>,
                CatalogIoErrorView,
            >(error)
        },
{
}

/// A predicate is stored as its name and its arity, where the largest number stands for none.
pub proof fn law_stored_predicates(name: Seq<char>, arity: usize)
    requires
        catalog_io::encode_text(name) is Ok,
    ensures
        catalog_io::encode_predicate((name, None)) == Ok::<Seq<u8>, CatalogIoErrorView>(
            catalog_io::encode_text(name)->Ok_0 + spec_u32_to_le_bytes(u32::MAX),
        ),
        arity < u32::MAX ==> catalog_io::encode_predicate((name, Some(arity))) == Ok::<
            Seq<u8>,
            CatalogIoErrorView,
        >(catalog_io::encode_text(name)->Ok_0 + spec_u32_to_le_bytes(arity as u32)),
        arity >= u32::MAX ==> catalog_io::encode_predicate((name, Some(arity))) == Err::<
            Seq<u8>,
            CatalogIoErrorView,
        >(CatalogIoErrorView::Invalid("predicate arity is too large"@)),
{
}

/// Predicates and values are stored one after the other.
pub proof fn law_stored_lists(
    predicates: Seq<PredicateView>,
    values: Seq<ConstantView>,
    from: nat,
)
    ensures
        from >= predicates.len() ==> catalog_io::encode_predicates(predicates, from) == Ok::<
            Seq<u8>,
            CatalogIoErrorView,
        >(Seq::empty()),
        from >= values.len() ==> catalog_io::encode_values(values, from) == Ok::<
            Seq<u8>,
            CatalogIoErrorView,
        >(Seq::empty()),
        from < predicates.len() && catalog_io::encode_predicate(predicates[from as int]) is Ok
            && catalog_io::encode_predicates(predicates, from + 1) is Ok
            ==> catalog_io::encode_predicates(predicates, from) == Ok::<
            Seq<u8>,
            CatalogIoErrorView,
        >(
            catalog_io::encode_predicate(predicates[from as int])->Ok_0
                + catalog_io::encode_predicates(predicates, from + 1)->Ok_0,
        ),
        from < values.len() && catalog_io::encode_value(values[from as int]) is Ok
            && catalog_io::encode_values(values, from + 1) is Ok ==> catalog_io::encode_values(
            values,
            from,
        ) == Ok::<Seq<u8>, CatalogIoErrorView>(
            catalog_io::encode_value(values[from as int])->Ok_0 + catalog_io::encode_values(
                values,
                from + 1,
            )->Ok_0,
        ),
{
}

/// A catalog is stored as the letters `SPKCAT01`, the number of its predicates, the predicates, the
/// number of its values and the values.
pub proof fn law_stored_catalogs(catalog: CatalogView)
    requires
        catalog.predicates.len() <= u32::MAX,
        catalog.values.len() <= u32::MAX,
        catalog_io::encode_predicates(catalog.predicates, 0) is Ok,
        catalog_io::encode_values(catalog.values, 0) is Ok,
    ensures
        catalog_io::encode_catalog(catalog) == Ok::<Seq<u8>, CatalogIoErrorView>(
            seq!['S' as u8, 'P' as u8, 'K' as u8, 'C' as u8, 'A' as u8, 'T' as u8, '0' as u8, '1' as u8]
                + (spec_u32_to_le_bytes(catalog.predicates.len() as u32) + (
            catalog_io::encode_predicates(catalog.predicates, 0)->Ok_0 + (spec_u32_to_le_bytes(
                catalog.values.len() as u32,
            ) + catalog_io::encode_values(catalog.values, 0)->Ok_0))),
        ),
{
}

/// Bytes that are no stored catalog: those that end too early, those that start otherwise, and those
/// with a text that is no UTF-8 or with a value of an unknown kind.
pub proof fn law_unreadable_bytes(bytes: Seq<u8>, at: int)
    requires
        0 <= at <= bytes.len(),
    ensures
        bytes.len() < 8 ==> catalog_io::decode_catalog(bytes) == Err::<
            CatalogView,
            CatalogIoErrorView,
        >(CatalogIoErrorView::UnexpectedEnd),
        bytes.len() >= 8 && bytes.take(8) != seq![
            'S' as u8,
            'P' as u8,
            'K' as u8,
            'C' as u8,
            'A' as u8,
            'T' as u8,
            '0' as u8,
            '1' as u8,
        ] ==> catalog_io::decode_catalog(bytes) == Err::<CatalogView, CatalogIoErrorView>(
            CatalogIoErrorView::Invalid("invalid catalog header"@),
        ),
        at + 4 > bytes.len() ==> catalog_io::decode_u32(bytes, at) == Err::<
            (u32, int),
            CatalogIoErrorView,
        >(CatalogIoErrorView::UnexpectedEnd),
        at + 4 <= bytes.len() ==> catalog_io::decode_u32(bytes, at) == Ok::<
            (u32, int),
            CatalogIoErrorView,
        >((spec_u32_from_le_bytes(bytes.subrange(at, at + 4)), at + 4)),
        catalog_io::decode_u32(bytes, at) matches Ok((length, start)) ==> {
            let found: Decoded<Seq<char>> = catalog_io::decode_text(bytes, at);
            &&& start + length > bytes.len() ==> found == Err::<
                (Seq<char>, int),
                CatalogIoErrorView,
            >(CatalogIoErrorView::UnexpectedEnd)
            &&& start + length <= bytes.len() && !valid_utf8(bytes.subrange(start, start + length))
                ==> found == Err::<(Seq<char>, int), CatalogIoErrorView>(
                CatalogIoErrorView::Invalid("catalog text is not UTF-8"@),
            )
        },
        at == bytes.len() ==> catalog_io::decode_value(bytes, at) == Err::<
            (ConstantView, int),
            CatalogIoErrorView,
        >(CatalogIoErrorView::UnexpectedEnd),
        at < bytes.len() && bytes[at] > 2 ==> catalog_io::decode_value(bytes, at) == Err::<
            (ConstantView, int),
            CatalogIoErrorView,
        >(CatalogIoErrorView::Invalid("unknown catalog value tag"@)),
{
}

/// A number is an optional plus sign and at least one digit, and at most the largest machine number.
pub proof fn law_counts(digits: Seq<char>)
    ensures
        digits.len() > 0 && text::all_digits(digits) && text::numeral(digits) <= usize::MAX ==> {
            &&& benchmark::parsed_usize(digits) == Some(text::numeral(digits) as usize)
            &&& benchmark::parsed_usize(seq!['+'] + digits) == Some(text::numeral(digits) as usize)
        },
        digits.len() > 0 && digits[0] != '+' && !text::all_digits(digits)
            ==> benchmark::parsed_usize(digits) is None,
        text::all_digits(digits) && text::numeral(digits) > usize::MAX ==> benchmark::parsed_usize(
            digits,
        ) is None,
        benchmark::parsed_usize(Seq::empty()) is None,
        benchmark::parsed_usize(seq!['+']) is None,
{
    let signed = seq!['+'] + digits;
    assert(text::without_plus(signed) =~= digits);
    assert(text::without_plus(seq!['+']) =~= Seq::<char>::empty());
    if digits.len() > 0 && text::all_digits(digits) {
        assert(text::is_digit(digits[0]));
        assert(text::without_plus(digits) == digits);
    }
}

/// What the arguments of a benchmark set, and what is said of one that cannot be used.
pub proof fn law_benchmark_arguments(
    arguments: Seq<Seq<char>>,
    known: KnownOptions,
    from: int,
    config: BenchmarkView,
)
    requires
        0 <= from <= arguments.len(),
    ensures
        ({
            let found = benchmark::configured(arguments, known, from, config);
            let word = arguments[from];
            let value = arguments[from + 1];
            let last = from + 1 == arguments.len();
            let bad = |message: Seq<char>| Err::<BenchmarkView, Seq<char>>(message);
            if from == arguments.len() {
                found == Ok::<BenchmarkView, Seq<char>>(config)
            } else if word == "--quick"@ {
                found == benchmark::configured(
                    arguments,
                    known,
                    from + 1,
                    BenchmarkView { quick: true, ..config },
                )
            } else if word == "--output"@ {
                if last {
                    found == bad("--output requires a path"@)
                } else {
                    found == benchmark::configured(
                        arguments,
                        known,
                        from + 2,
                        BenchmarkView { output: Some(value), ..config },
                    )
                }
            } else if word == "--graph"@ && known.graph {
                if last {
                    found == bad("--graph requires a path"@)
                } else {
                    found == benchmark::configured(
                        arguments,
                        known,
                        from + 2,
                        BenchmarkView { graph: value, ..config },
                    )
                }
            } else if word == "--samples"@ && known.samples {
                if last {
                    found == bad("--samples requires a count"@)
                } else {
                    match benchmark::parsed_usize(value) {
                        None => found == bad("invalid sample count: "@ + value),
                        Some(count) => if count == 0 {
                            found == bad("sample count must be greater than zero"@)
                        } else {
                            found == benchmark::configured(
                                arguments,
                                known,
                                from + 2,
                                BenchmarkView { samples: Some(count), ..config },
                            )
                        },
                    }
                }
            } else {
                found == bad("unknown argument: "@ + word)
            }
        }),
        benchmark::default_benchmark() == (BenchmarkView {
            graph: "reference/gdlog/data/com-dblp/edge.facts"@,
            output: None,
            quick: false,
            samples: None,
        }),
{
    reveal_strlit("--quick");
    reveal_strlit("--output");
    reveal_strlit("--graph");
    reveal_strlit("--samples");
    assert("--quick"@[2] == 'q' && "--output"@[2] == 'o' && "--graph"@[2] == 'g' && "--samples"@[2]
        == 's');
}

/// What the arguments of the closure benchmark set, and what is said of one that cannot be used.
pub proof fn law_closure_arguments(arguments: Seq<Seq<char>>, from: int, config: ClosureConfig)
    requires
        0 <= from <= arguments.len(),
    ensures
        ({
            let found = benchmark::closure_configured(arguments, from, config);
            let word = arguments[from];
            let value = arguments[from + 1];
            let last = from + 1 == arguments.len();
            let bad = |message: Seq<char>| Err::<ClosureConfig, Seq<char>>(message);
            let on = |next: ClosureConfig|
                benchmark::closure_configured(arguments, from + 2, next);
            if from == arguments.len() {
                found == Ok::<ClosureConfig, Seq<char>>(config)
            } else if word == "--vertices"@ {
                if last {
                    found == bad("--vertices requires a count"@)
                } else {
                    match benchmark::parsed_usize(value) {
                        None => found == bad("invalid vertex count: "@ + value),
                        Some(vertices) => if vertices < 2 || vertices > 4096 {
                            found == bad("vertex count must be between 2 and 4,096"@)
                        } else {
                            found == on(ClosureConfig { vertices, ..config })
                        },
                    }
                }
            } else if word == "--max-iterations"@ {
                if last {
                    found == bad("--max-iterations requires a count"@)
                } else {
                    match benchmark::parsed_usize(value) {
                        None => found == bad("invalid iteration count: "@ + value),
                        Some(max_iterations) => found == on(
                            ClosureConfig { max_iterations, ..config },
                        ),
                    }
                }
            } else if word == "--backend"@ {
                if last {
                    found == bad("--backend requires auto, cpu, or gpu"@)
                } else if value == "auto"@ {
                    found == on(ClosureConfig { backend: ClosureBackend::Auto, ..config })
                } else if value == "cpu"@ {
                    found == on(ClosureConfig { backend: ClosureBackend::Cpu, ..config })
                } else if value == "gpu"@ {
                    found == on(ClosureConfig { backend: ClosureBackend::Gpu, ..config })
                } else {
                    found == bad("invalid backend: "@ + value)
                }
            } else {
                found == bad("unknown argument: "@ + word)
            }
        }),
{
}

/// A hundred rows in order have as many selected ones as the selectivity says, and the rows after
/// them start again.
pub proof fn law_selectivity(rows: nat, selectivity: nat)
    requires
        selectivity <= 100,
    ensures
        benchmark::selected_count(0, selectivity) == 0,
        rows <= selectivity ==> benchmark::selected_count(rows, selectivity) == rows,
        selectivity <= rows <= 100 ==> benchmark::selected_count(rows, selectivity) == selectivity,
        rows >= 100 ==> benchmark::selected_count(rows, selectivity) == selectivity
            + benchmark::selected_count((rows - 100) as nat, selectivity),
    decreases rows,
{
    if rows > 0 {
        law_selectivity((rows - 1) as nat, selectivity);
        if rows >= 101 {
            assert((rows - 101) % 100 == (rows - 1) % 100) by {
                vstd::arithmetic::div_mod::lemma_mod_sub_multiples_vanish(rows - 1, 100);
            }
        }
    }
}

} // verus!
