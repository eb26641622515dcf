//! Tables of Brazilian tax codes, the pattern that recognizes other
//! operating revenues, and small slice conversions.

use vstd::prelude::*;

verus! {

/// The pattern that recognizes descriptions of other (non-operating)
/// revenues, case-insensitively and ignoring layout.
pub const PATTERN: &'static str =
    r"(?xi)
    Atualiz.*Monet|
    Vend.*Imobiliz|
    Var.*Camb|
    Desc.*Financ|
    Desc.*Obtido|
    Desp.*N.*Oper|
    Rec.*Financ|
    Rec.*N.*Oper|
    Outras?\s*Rec|
    Outras?\s*Desp|
    Juro|
    Selic|
    Hedge
";

/// Whether `PATTERN` matches somewhere in the text: a function of the
/// text alone.
pub uninterp spec fn other_revenues_match(text: Seq<char>) -> bool;

/// Relies on regex::Regex::new and regex::Regex::is_match: whether the
/// crate's fixed revenue pattern matches somewhere in `text`, a function
/// of the text alone.
#[verifier::external_body]
pub fn outras_receitas_is_match(text: &str) -> (found: bool)
    ensures
        found == other_revenues_match(text@),
{
    match regex::Regex::new(PATTERN) {
        Ok(re) => re.is_match(text),
        Err(_) => false,
    }
}

/// The tax situation codes: the values 1 through 99.
#[verifier::loop_isolation(false)]
pub fn cst_all() -> (codes: Vec<u16>)
    ensures
        codes@.len() == 99,
        forall|i: int| 0 <= i < 99 ==> codes@[i] == i + 1,
{
    let mut codes: Vec<u16> = Vec::new();
    let mut value: u16 = 1;
    while value <= 99
        invariant
            1 <= value <= 100,
            codes@.len() == value - 1,
            forall|i: int| 0 <= i < codes@.len() ==> codes@[i] == i + 1,
        decreases 100 - value,
    {
        codes.push(value);
        value = value + 1;
    }
    codes
}

/// The base-calculation codes: the values 101 through 199.
#[verifier::loop_isolation(false)]
pub fn base_calc_soma() -> (codes: Vec<u16>)
    ensures
        codes@.len() == 99,
        forall|i: int| 0 <= i < 99 ==> codes@[i] == i + 101,
{
    let mut codes: Vec<u16> = Vec::new();
    let mut value: u16 = 101;
    while value <= 199
        invariant
            101 <= value <= 200,
            codes@.len() == value - 101,
            forall|i: int| 0 <= i < codes@.len() ==> codes@[i] == i + 101,
        decreases 200 - value,
    {
        codes.push(value);
        value = value + 1;
    }
    codes
}

/// The nature-of-the-base codes: the values 1 through 18.
#[verifier::loop_isolation(false)]
pub fn codigo_da_natureza_bc() -> (codes: Vec<u16>)
    ensures
        codes@.len() == 18,
        forall|i: int| 0 <= i < 18 ==> codes@[i] == i + 1,
{
    let mut codes: Vec<u16> = Vec::new();
    let mut value: u16 = 1;
    while value <= 18
        invariant
            1 <= value <= 19,
            codes@.len() == value - 1,
            forall|i: int| 0 <= i < codes@.len() ==> codes@[i] == i + 1,
        decreases 19 - value,
    {
        codes.push(value);
        value = value + 1;
    }
    codes
}

/// The tax situation codes that grant credit.
pub fn cst_credito() -> (codes: Vec<u16>)
    ensures
        codes@ == seq![50u16, 51u16, 52u16, 53u16, 54u16, 55u16, 56u16, 60u16, 61u16, 62u16,
            63u16, 64u16, 65u16, 66u16],
{
    let mut codes: Vec<u16> = Vec::new();
    codes.push(50);
    codes.push(51);
    codes.push(52);
    codes.push(53);
    codes.push(54);
    codes.push(55);
    codes.push(56);
    codes.push(60);
    codes.push(61);
    codes.push(62);
    codes.push(63);
    codes.push(64);
    codes.push(65);
    codes.push(66);
    proof {
        assert(codes@ =~= seq![50u16, 51u16, 52u16, 53u16, 54u16, 55u16, 56u16, 60u16, 61u16,
            62u16, 63u16, 64u16, 65u16, 66u16]);
    }
    codes
}

/// The tax situation codes that grant basic credit.
pub fn cst_credito_basico() -> (codes: Vec<u16>)
    ensures
        codes@ == seq![50u16, 51u16, 52u16, 53u16, 54u16, 55u16, 56u16],
{
    let mut codes: Vec<u16> = Vec::new();
    codes.push(50);
    codes.push(51);
    codes.push(52);
    codes.push(53);
    codes.push(54);
    codes.push(55);
    codes.push(56);
    proof {
        assert(codes@ =~= seq![50u16, 51u16, 52u16, 53u16, 54u16, 55u16, 56u16]);
    }
    codes
}

/// The tax situation codes that grant presumed credit.
pub fn cst_credito_presumido() -> (codes: Vec<u16>)
    ensures
        codes@ == seq![60u16, 61u16, 62u16, 63u16, 64u16, 65u16, 66u16],
{
    let mut codes: Vec<u16> = Vec::new();
    codes.push(60);
    codes.push(61);
    codes.push(62);
    codes.push(63);
    codes.push(64);
    codes.push(65);
    codes.push(66);
    proof {
        assert(codes@ =~= seq![60u16, 61u16, 62u16, 63u16, 64u16, 65u16, 66u16]);
    }
    codes
}

/// The tax situation codes that count toward gross revenue.
pub fn cst_receita_bruta() -> (codes: Vec<u16>)
    ensures
        codes@ == seq![1u16, 2u16, 3u16, 4u16, 5u16, 6u16, 7u16, 8u16, 9u16, 49u16],
{
    let mut codes: Vec<u16> = Vec::new();
    codes.push(1);
    codes.push(2);
    codes.push(3);
    codes.push(4);
    codes.push(5);
    codes.push(6);
    codes.push(7);
    codes.push(8);
    codes.push(9);
    codes.push(49);
    proof {
        assert(codes@ =~= seq![1u16, 2u16, 3u16, 4u16, 5u16, 6u16, 7u16, 8u16, 9u16, 49u16]);
    }
    codes
}

/// The tax situation codes of untaxed revenue.
pub fn csts_nao_tributados() -> (codes: Vec<u16>)
    ensures
        codes@ == seq![4u16, 6u16, 7u16, 8u16, 9u16, 49u16],
{
    let mut codes: Vec<u16> = Vec::new();
    codes.push(4);
    codes.push(6);
    codes.push(7);
    codes.push(8);
    codes.push(9);
    codes.push(49);
    proof {
        assert(codes@ =~= seq![4u16, 6u16, 7u16, 8u16, 9u16, 49u16]);
    }
    codes
}

/// The operation codes of sales of fixed assets.
pub fn cfop_venda_de_imobilizado() -> (codes: Vec<u16>)
    ensures
        codes@ == seq![5551u16, 6551u16, 7551u16],
{
    let mut codes: Vec<u16> = Vec::new();
    codes.push(5551);
    codes.push(6551);
    codes.push(7551);
    proof {
        assert(codes@ =~= seq![5551u16, 6551u16, 7551u16]);
    }
    codes
}

/// The operation codes of exports: first the codes of sales made for the
/// purpose of export, then the whole 7000 group.
#[verifier::loop_isolation(false)]
pub fn cfop_de_exportacao() -> (codes: Vec<u16>)
    ensures
        codes@.len() == 1026,
        codes@.take(26) == seq![1500u16, 1501u16, 1503u16, 1504u16, 1505u16, 1506u16, 2500u16,
            2501u16, 2503u16, 2504u16, 2505u16, 2506u16, 3500u16, 3503u16, 5500u16, 5501u16,
            5502u16, 5503u16, 5504u16, 5505u16, 6500u16, 6501u16, 6502u16, 6503u16, 6504u16,
            6505u16],
        forall|i: int| 26 <= i < 1026 ==> codes@[i] == 7000 + (i - 26),
{
    let mut codes: Vec<u16> = Vec::new();
    codes.push(1500);
    codes.push(1501);
    codes.push(1503);
    codes.push(1504);
    codes.push(1505);
    codes.push(1506);
    codes.push(2500);
    codes.push(2501);
    codes.push(2503);
    codes.push(2504);
    codes.push(2505);
    codes.push(2506);
    codes.push(3500);
    codes.push(3503);
    codes.push(5500);
    codes.push(5501);
    codes.push(5502);
    codes.push(5503);
    codes.push(5504);
    codes.push(5505);
    codes.push(6500);
    codes.push(6501);
    codes.push(6502);
    codes.push(6503);
    codes.push(6504);
    codes.push(6505);
    let ghost prefix = codes@;
    proof {
        assert(prefix =~= seq![1500u16, 1501u16, 1503u16, 1504u16, 1505u16, 1506u16, 2500u16,
            2501u16, 2503u16, 2504u16, 2505u16, 2506u16, 3500u16, 3503u16, 5500u16, 5501u16,
            5502u16, 5503u16, 5504u16, 5505u16, 6500u16, 6501u16, 6502u16, 6503u16, 6504u16,
            6505u16]);
    }
    let mut value: u16 = 7000;
    while value <= 7999
        invariant
            7000 <= value <= 8000,
            codes@.len() == 26 + (value - 7000),
            codes@.take(26) == prefix,
            forall|i: int| 26 <= i < codes@.len() ==> codes@[i] == 7000 + (i - 26),
        decreases 8000 - value,
    {
        let ghost before = codes@;
        codes.push(value);
        proof {
            assert(codes@.take(26) =~= before.take(26));
        }
        value = value + 1;
    }
    codes
}

/// Wraps each value of the slice in `Some`.
#[verifier::loop_isolation(false)]
pub fn array_to_vec(values: &[u16]) -> (options: Vec<Option<u16>>)
    ensures
        options@ == values@.map_values(|x: u16| Some(x)),
{
    let n = values.len();
    let mut options: Vec<Option<u16>> = Vec::new();
    let mut i: usize = 0;
    proof {
        assert(options@ =~= values@.take(0).map_values(|x: u16| Some(x)));
    }
    while i < n
        invariant
            i <= n,
            options@ == values@.take(i as int).map_values(|x: u16| Some(x)),
        decreases n - i,
    {
        let x = *vstd::slice::slice_index_get(values, i);
        options.push(Some(x));
        proof {
            assert(values@.take(i as int + 1) =~= values@.take(i as int).push(x));
            assert(values@.take(i as int).push(x).map_values(|x: u16| Some(x))
                =~= values@.take(i as int).map_values(|x: u16| Some(x)).push(Some(x)));
        }
        i = i + 1;
    }
    proof {
        assert(values@.take(n as int) =~= values@);
    }
    options
}

/// Narrows each value of the slice to sixteen bits; every value must be
/// in range.
#[verifier::loop_isolation(false)]
pub fn try_convert(slice: &[i64]) -> (narrowed: Vec<u16>)
    requires
        forall|i: int| 0 <= i < slice@.len() ==> 0 <= #[trigger] slice@[i] <= u16::MAX,
    ensures
        narrowed@ == slice@.map_values(|x: i64| x as u16),
{
    let n = slice.len();
    let mut narrowed: Vec<u16> = Vec::new();
    let mut i: usize = 0;
    proof {
        assert(narrowed@ =~= slice@.take(0).map_values(|x: i64| x as u16));
    }
    while i < n
        invariant
            i <= n,
            narrowed@ == slice@.take(i as int).map_values(|x: i64| x as u16),
        decreases n - i,
    {
        let x = *vstd::slice::slice_index_get(slice, i);
        narrowed.push(x as u16);
        proof {
            assert(slice@.take(i as int + 1) =~= slice@.take(i as int).push(x));
            assert(slice@.take(i as int).push(x).map_values(|x: i64| x as u16)
                =~= slice@.take(i as int).map_values(|x: i64| x as u16).push(x as u16));
        }
        i = i + 1;
    }
    proof {
        assert(slice@.take(n as int) =~= slice@);
    }
    narrowed
}

} // verus!
