use mushikui::digit::Digit;
use mushikui::grid::mushikui_from;
use mushikui::puzzle::{Mushikui, ValidationError};

fn chars(s: &str) -> Vec<char> {
    s.chars().collect()
}

fn build(multiplicand: &str, multiplier: &str, parts: &[&str], product: &str) -> Mushikui {
    let parts: Vec<Vec<char>> = parts.iter().map(|p| chars(p)).collect();
    Mushikui::new(&chars(multiplicand), &chars(multiplier), &parts, &chars(product)).unwrap()
}

fn grid(text: &str) -> Mushikui {
    mushikui_from(text).unwrap()
}

fn row_text(row: &[Digit]) -> String {
    row.iter()
        .map(|d| match d {
            Digit::Fix(v) => char::from(b'0' + *v),
            Digit::Any => '*',
        })
        .collect()
}

fn number(row: &[Digit]) -> u128 {
    row.iter().fold(0, |acc, d| match d {
        Digit::Fix(v) => acc * 10 + *v as u128,
        Digit::Any => panic!("hidden cell in a solution"),
    })
}

fn texts(m: &Mushikui) -> (String, String, Vec<String>, String) {
    (
        row_text(&m.multiplicand),
        row_text(&m.multiplier),
        m.partial_product.iter().map(|r| row_text(r)).collect(),
        row_text(&m.product),
    )
}

fn assert_consistent(m: &Mushikui) {
    let a = number(&m.multiplicand);
    let b = number(&m.multiplier);
    let n = m.multiplier.len();
    let mut sum = 0u128;
    for j in 0..n {
        let d = number(&m.multiplier[n - 1 - j..n - j]);
        assert!(d >= 1);
        assert_eq!(number(&m.partial_product[j]), a * d);
        sum += number(&m.partial_product[j]) * 10u128.pow(j as u32);
    }
    assert_eq!(number(&m.product), sum);
    assert_eq!(sum, a * b);
}

fn agrees(sol: &[Digit], orig: &[Digit]) -> bool {
    sol.len() == orig.len()
        && sol.iter().zip(orig).all(|(s, o)| match o {
            Digit::Fix(_) => s == o,
            Digit::Any => true,
        })
}

#[test]
fn digit_cells() {
    assert_eq!(Digit::parse('7'), Some(Digit::Fix(7)));
    assert_eq!(Digit::parse('0'), Some(Digit::Fix(0)));
    assert_eq!(Digit::parse('*'), Some(Digit::Any));
    assert_eq!(Digit::parse('x'), None);
    assert_eq!(Digit::Fix(4).digit(), Some(4));
    assert_eq!(Digit::Any.digit(), None);
    assert!(Digit::Fix(4).accept(4));
    assert!(!Digit::Fix(4).accept(5));
    assert!(Digit::Any.accept(0));
    assert!(Digit::Any.is_any());
    assert!(!Digit::Fix(1).is_any());
}

#[test]
fn single_digit_multiplier_found() {
    let mut p = build("9", "*", &["27"], "27");
    let r = p.solve();
    assert_eq!(r.len(), 1);
    assert_eq!(texts(&r[0]), ("9".to_string(), "3".to_string(), vec!["27".to_string()], "27".to_string()));
}

#[test]
fn trailing_digit_fixes_multiplier() {
    let mut p = build("27", "*", &["**9"], "**9");
    let r = p.solve();
    assert_eq!(r.len(), 1);
    assert_eq!(
        texts(&r[0]),
        ("27".to_string(), "7".to_string(), vec!["189".to_string()], "189".to_string())
    );
}

#[test]
fn product_too_long_for_every_digit() {
    // 99 times any digit from 2 to 9 has three digits; times 1 it is 99,
    // which does not fit a three-digit row either
    let mut p = build("99", "*", &["***"], "**");
    assert!(p.solve().is_empty());
    let mut q = build("9", "*", &["*"], "*");
    let r = q.solve();
    assert_eq!(r.len(), 1);
    assert_eq!(texts(&r[0]).1, "1");
}

#[test]
fn known_consistent_puzzle_is_its_own_solution() {
    let mut p = build("27", "13", &["81", "27"], "351");
    let before = texts(&p);
    let r = p.solve();
    assert_eq!(r.len(), 1);
    assert_eq!(texts(&r[0]), before);
    assert_eq!(texts(&p), before);
}

#[test]
fn known_inconsistent_puzzle_has_no_solution() {
    let mut p = build("27", "13", &["81", "27"], "352");
    assert!(p.solve().is_empty());
    let mut q = build("27", "13", &["82", "27"], "352");
    assert!(q.solve().is_empty());
}

#[test]
fn solve_leaves_the_puzzle_unchanged() {
    let mut p = build("*1", "2*", &["**3", "*4*"], "****");
    let before = texts(&p);
    let r = p.solve();
    assert!(!r.is_empty());
    assert_eq!(texts(&p), before);
}

#[test]
fn validation_errors() {
    let e = |a: &str, b: &str, parts: &[&str], c: &str| {
        let parts: Vec<Vec<char>> = parts.iter().map(|p| chars(p)).collect();
        Mushikui::new(&chars(a), &chars(b), &parts, &chars(c)).unwrap_err()
    };
    assert_eq!(e("", "*", &["*"], "*"), ValidationError::EmptyMultiplicand);
    assert_eq!(e("9", "", &[], "*"), ValidationError::EmptyMultiplier);
    assert_eq!(e("9", "**", &["*", "*"], "**"), ValidationError::MultiplierTooLong);
    assert_eq!(e("9", "*", &[], "*"), ValidationError::PartialProductCount);
    assert_eq!(e("9", "*", &["***"], "*"), ValidationError::PartialProductLength);
    assert_eq!(e("9", "*", &[""], "*"), ValidationError::PartialProductLength);
    assert_eq!(e("9", "*", &["**"], "***"), ValidationError::ProductLength);
    assert_eq!(e("99", "*", &["**"], "*"), ValidationError::ProductLength);
    assert_eq!(e("09", "*", &["**"], "**"), ValidationError::LeadingZero);
    assert_eq!(e("9", "0", &["*"], "*"), ValidationError::LeadingZero);
    assert_eq!(e("9", "*", &["0*"], "**"), ValidationError::LeadingZero);
    assert_eq!(e("9", "*", &["**"], "0*"), ValidationError::LeadingZero);
    assert_eq!(e("9", "*", &["*x"], "**"), ValidationError::InvalidCell);
    assert_eq!(e("a", "*", &["**"], "**"), ValidationError::InvalidCell);
}

#[test]
fn new_keeps_the_cells() {
    let p = build("2*", "4*", &["6*", "*8"], "***");
    assert_eq!(p.multiplicand, vec![Digit::Fix(2), Digit::Any]);
    assert_eq!(p.multiplier, vec![Digit::Fix(4), Digit::Any]);
    assert_eq!(p.partial_product, vec![vec![Digit::Fix(6), Digit::Any], vec![Digit::Any, Digit::Fix(8)]]);
    assert_eq!(p.product, vec![Digit::Any, Digit::Any, Digit::Any]);
}

#[test]
fn partial_product_of_known_multiplicand() {
    let p = build("27", "*", &["***"], "***");
    assert_eq!(p.calculate_partial_product(7), vec![1, 8, 9]);
    assert_eq!(p.calculate_partial_product(1), vec![2, 7]);
    assert_eq!(p.calculate_partial_product(3), vec![8, 1]);
    let q = build("9999", "*", &["*****"], "*****");
    assert_eq!(q.calculate_partial_product(9), vec![8, 9, 9, 9, 1]);
}

#[test]
fn partial_product_of_known_right_end() {
    // only the two rightmost digits are known: the carry out of them is dropped
    let p = build("*75", "*", &["****"], "****");
    assert_eq!(p.calculate_partial_product(4), vec![0, 0]);
    assert_eq!(p.calculate_partial_product(3), vec![2, 5]);
    let q = build("7*", "*", &["***"], "***");
    assert_eq!(q.calculate_partial_product(9), Vec::<u8>::new());
}

#[test]
fn product_sums_shifted_rows() {
    let p = build("27", "13", &["81", "27"], "***");
    assert_eq!(p.calculate_product(), vec![3, 5, 1]);
    let q = build("99", "99", &["891", "891"], "****");
    assert_eq!(q.calculate_product(), vec![9, 8, 0, 1]);
    // hidden cells count as zero
    let r = build("2*", "4*", &["6*", "*8"], "***");
    assert_eq!(r.calculate_product(), vec![1, 4, 0]);
}

#[test]
fn solutions_hold_and_keep_known_cells() {
    let mut p = build("*1", "2*", &["**3", "*4*"], "****");
    let orig = build("*1", "2*", &["**3", "*4*"], "****");
    let r = p.solve();
    assert!(!r.is_empty());
    for s in &r {
        assert_consistent(s);
        assert!(agrees(&s.multiplicand, &orig.multiplicand));
        assert!(agrees(&s.multiplier, &orig.multiplier));
        assert!(agrees(&s.product, &orig.product));
        for j in 0..orig.partial_product.len() {
            assert!(agrees(&s.partial_product[j], &orig.partial_product[j]));
        }
    }
}

fn brute_force(orig: &Mushikui) -> Vec<(u128, u128)> {
    let l1 = orig.multiplicand.len() as u32;
    let l2 = orig.multiplier.len() as u32;
    let mut found = Vec::new();
    for a in 10u128.pow(l1 - 1)..10u128.pow(l1) {
        for b in 10u128.pow(l2 - 1)..10u128.pow(l2) {
            let digits = |x: u128| -> Vec<Digit> {
                x.to_string().bytes().map(|c| Digit::Fix(c - b'0')).collect()
            };
            let bd = digits(b);
            if bd.contains(&Digit::Fix(0)) {
                continue;
            }
            let mut ok = agrees(&digits(a), &orig.multiplicand) && agrees(&bd, &orig.multiplier);
            for j in 0..l2 as usize {
                let d = (b / 10u128.pow(j as u32)) % 10;
                ok = ok && agrees(&digits(a * d), &orig.partial_product[j]);
            }
            ok = ok && agrees(&digits(a * b), &orig.product);
            if ok {
                found.push((a, b));
            }
        }
    }
    found
}

fn solved_pairs(p: &mut Mushikui) -> Vec<(u128, u128)> {
    let mut v: Vec<(u128, u128)> = p
        .solve()
        .iter()
        .map(|s| {
            assert_consistent(s);
            (number(&s.multiplicand), number(&s.multiplier))
        })
        .collect();
    v.sort();
    v
}

#[test]
fn search_matches_brute_force_on_small_puzzles() {
    let cases: Vec<Mushikui> = vec![
        build("*1", "2*", &["**3", "*4*"], "****"),
        build("2*", "4*", &["6*", "*8"], "***"),
        build("7*", "**", &["*5*", "**"], "*3*"),
        build("**", "*", &["**"], "**"),
        build("***", "**", &["***", "****"], "****"),
        build("*", "*", &["*"], "*"),
        build("*2*", "*", &["**8*"], "**8*"),
        build("**", "**", &["***", "**"], "***"),
    ];
    for mut p in cases {
        let expected = brute_force(&p);
        assert_eq!(solved_pairs(&mut p), expected);
    }
}

#[test]
fn small_example_grids_have_one_solution() {
    let problems = [
        "
          *1
          2*
        ----
         **3
        *4*
        ----
        ****
        ",
        "
         2*
         4*
        ---
         6*
        *8
        ---
        ***
        ",
        "
         7*
         **
        ---
        *5*
        **
        ---
        *3*
        ",
        "
            *1**
            2***
        -------
           *3**
         **4**
        ****5
        ***6
        -------
        ****7**
        ",
    ];
    for text in problems {
        let mut p = grid(text);
        let r = p.solve();
        assert_eq!(r.len(), 1);
        assert_consistent(&r[0]);
    }
}

#[test]
fn grid_with_six_digit_multiplier_has_one_solution() {
    let mut p = grid(
        "
              *1*****
               ******
        -------------
              2*3****
            ********
           **4*5*6*
           *******
          ****7*8
        ********
        -------------
        *******9*****
        ",
    );
    let r = p.solve();
    assert_eq!(r.len(), 1);
    assert_consistent(&r[0]);
}

#[test]
fn grid_with_forty_four_digit_product_has_one_solution() {
    let mut p = grid(
        "
                            ************************
                                ********************
        --------------------------------------------
                           *********************9*0*
                          ********************8*1**
                          ******************7*2***
                        ******************6*3****
                       *****************5*4*****
                       ***************4*5******
                     ***************3*6*******
                     *************2*7********
                   *************1*8*********
                   ***********0*9**********
                 ***********9*0***********
                **********8*1************
                ********7*2*************
               *******6*3**************
              ******5*4***************
             *****4*5****************
            ****3*6*****************
          ****2*7******************
          **1*8*******************
        **0*9********************
        --------------------------------------------
        ********************************************
    ",
    );
    let r = p.solve();
    assert_eq!(r.len(), 1);
    assert_eq!(r[0].multiplicand.len(), 24);
    assert_eq!(r[0].product.len(), 44);
}

#[test]
fn grid_text_is_read_row_by_row() {
    let p = mushikui_from("\n   9\n   *\r\n ---\n  27 \n\t---\n 27\n\n").unwrap();
    assert_eq!(p.multiplicand, vec![Digit::Fix(9)]);
    assert_eq!(p.multiplier, vec![Digit::Any]);
    assert_eq!(p.partial_product, vec![vec![Digit::Fix(2), Digit::Fix(7)]]);
    assert_eq!(p.product, vec![Digit::Fix(2), Digit::Fix(7)]);
}

#[test]
fn grid_text_errors() {
    assert_eq!(mushikui_from("9\n*\n---\n27").unwrap_err(), ValidationError::MissingRows);
    assert_eq!(mushikui_from("").unwrap_err(), ValidationError::MissingRows);
    assert_eq!(mushikui_from("9\n*\n2x\n27").unwrap_err(), ValidationError::InvalidCell);
    assert_eq!(mushikui_from("9\n**\n27\n27").unwrap_err(), ValidationError::MultiplierTooLong);
}

#[test]
fn hidden_leading_cells_still_give_their_columns() {
    let p = build("*7", "*", &["*9"], "**");
    assert_eq!(p.calculate_product(), vec![0, 9]);
}

#[test]
fn solutions_come_in_ascending_digit_order() {
    let mut p = build("*", "1", &["*"], "*");
    let r = p.solve();
    assert_eq!(r.len(), 9);
    for (k, s) in r.iter().enumerate() {
        let v = k as u8 + 1;
        assert_eq!(s.multiplicand, vec![Digit::Fix(v)]);
        assert_eq!(s.partial_product, vec![vec![Digit::Fix(v)]]);
        assert_eq!(s.product, vec![Digit::Fix(v)]);
    }
}

#[test]
fn solutions_can_be_cloned() {
    let mut p = build("9", "*", &["27"], "27");
    let r = p.solve();
    let c = r[0].clone();
    assert_eq!(texts(&c), texts(&r[0]));
}
