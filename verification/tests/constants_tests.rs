use claudiofsr_lib::constants::array_to_vec;
use claudiofsr_lib::constants::cfop_de_exportacao;
use claudiofsr_lib::constants::codigo_da_natureza_bc;
use claudiofsr_lib::constants::cst_all;
use claudiofsr_lib::constants::cst_credito;
use claudiofsr_lib::constants::outras_receitas_is_match;

#[test]
fn find_other_revenues() {
    let lines = vec![
        "foo bar",
        "Atualização Monetária",
        "Outras Receitas Operacionais",
        "Juros sobre Capital Próprio",
        "Descontos",
    ];

    let mut result = Vec::new();

    for line in lines {
        let find: bool = outras_receitas_is_match(line);
        result.push(find);
    }

    assert_eq!(vec![false, true, true, true, false], result);
}

#[test]
fn get_cst_all_options() {
    let csts: Vec<Option<u16>> = array_to_vec(&cst_all());
    println!("csts: {csts:?}");

    assert_eq!(csts[0], Some(1));
    assert_eq!(csts[98], Some(99));
}

#[test]
fn get_cfop_options() {
    let cfops: Vec<Option<u16>> = cfop_de_exportacao().into_iter().map(Some).collect();

    println!("cfops: {cfops:?}");

    assert_eq!(cfops[0], Some(1500));
    assert_eq!(cfops[26], Some(7000));
}

#[test]
fn convert() {
    let nats: Vec<Option<u16>> = codigo_da_natureza_bc().into_iter().map(Some).collect();

    println!("nats: {nats:?}");

    assert_eq!(nats[0], Some(1));
    assert_eq!(nats[17], Some(18));
}

#[test]
fn map_to_option() {
    let nats: Vec<Option<u16>> = codigo_da_natureza_bc().iter().map(|n| Some(*n)).collect();

    println!("nats: {nats:?}");

    assert_eq!(nats[0], Some(1));
    assert_eq!(nats[17], Some(18));
}

#[test]
fn credit_codes_hold_both_groups() {
    let codes = cst_credito();
    assert_eq!(
        codes,
        [50, 51, 52, 53, 54, 55, 56, 60, 61, 62, 63, 64, 65, 66]
    );
}

#[test]
fn export_codes_cover_the_whole_7000_group() {
    let codes = cfop_de_exportacao();
    assert_eq!(codes.len(), 1026);
    assert_eq!(codes[25], 6505);
    assert_eq!(codes[1025], 7999);
}

#[test]
fn narrowing_keeps_each_value() {
    let wide: Vec<i64> = vec![20, 35, 456, 7];
    let narrow: Vec<u16> = claudiofsr_lib::constants::try_convert(&wide);
    assert_eq!(narrow, [20, 35, 456, 7]);
}
