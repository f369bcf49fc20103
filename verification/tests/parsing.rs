use fractal::parse::{find_sep, pair_of_parsed, split_pair, str_eq};
use fractal::{parse_pair, Fractal, StandardColors};

#[test]
fn test_parse_pair() {
    assert_eq!(parse_pair::<i32>("", ','), None);
    assert_eq!(parse_pair::<i32>("10,", ','), None);
    assert_eq!(parse_pair::<i32>(",10", ','), None);
    assert_eq!(parse_pair::<i32>("10,20", 'f'), None);
    assert_eq!(parse_pair::<i32>("10,20", ','), Some((10, 20)));
    assert_eq!(parse_pair::<i32>("10,20xy", ','), None);
    assert_eq!(parse_pair::<f64>("0.5x", 'x'), None);
    assert_eq!(parse_pair::<f64>("0.5x1.5", 'x'), Some((0.5, 1.5)));
}

#[test]
fn parse_pair_splits_at_first_separator() {
    // "1,2,3" splits at the first comma; "2,3" is not a number.
    assert_eq!(parse_pair::<i32>("1,2,3", ','), None);
    assert_eq!(parse_pair::<u32>("1000x750", 'x'), Some((1000, 750)));
}

#[test]
fn find_sep_reports_first_occurrence() {
    assert_eq!(find_sep("10,20", ','), Some(2));
    assert_eq!(find_sep(",10", ','), Some(0));
    assert_eq!(find_sep("1,2,3", ','), Some(1));
    assert_eq!(find_sep("1020", ','), None);
    assert_eq!(find_sep("", ','), None);
}

#[test]
fn str_eq_compares_characters() {
    assert!(str_eq("mandelbrot", "mandelbrot"));
    assert!(!str_eq("mandelbrot", "mandelbro"));
    assert!(!str_eq("julia", "julio"));
    assert!(str_eq("", ""));
}

#[test]
fn split_pair_cuts_out_the_separator() {
    assert_eq!(split_pair("1000x750", 'x'), Some(("1000", "750")));
    assert_eq!(split_pair("-1.20,0.35", ','), Some(("-1.20", "0.35")));
    assert_eq!(split_pair("10,", ','), Some(("10", "")));
    assert_eq!(split_pair(",10", ','), Some(("", "10")));
    assert_eq!(split_pair("a,b,c", ','), Some(("a", "b,c")));
    assert_eq!(split_pair("abc", ','), None);
}

#[test]
fn pair_of_parsed_requires_both_halves() {
    assert_eq!(pair_of_parsed(Some(1u32), Some(2u32)), Some((1, 2)));
    assert_eq!(pair_of_parsed(Some(1u32), None), None);
    assert_eq!(pair_of_parsed(None, Some(2u32)), None);
    assert_eq!(pair_of_parsed::<u32>(None, None), None);
}

#[test]
fn standard_colors_select_distinct_parts() {
    let modes = [
        StandardColors::SUM,
        StandardColors::REAL,
        StandardColors::IMAGINARY,
    ];
    for (i, a) in modes.iter().enumerate() {
        for (j, b) in modes.iter().enumerate() {
            assert_eq!(i == j, a == b);
        }
    }
}

#[test]
fn fractal_from_str_accepts_the_three_tokens() {
    assert_eq!(Fractal::from_str("mandelbrot"), Ok(Fractal::MANDELBROT));
    assert_eq!(Fractal::from_str("julia"), Ok(Fractal::JULIA));
    assert_eq!(Fractal::from_str("newton"), Ok(Fractal::NEWTON));
    assert_eq!(Fractal::from_str("mandel"), Err(()));
    assert_eq!(Fractal::from_str(""), Err(()));
    assert_eq!(Fractal::from_str("Mandelbrot"), Err(()));
}
