use core::fmt::Debug;

use hello_rust_core::cmov::CMov;
use hello_rust_core::cmov::CndOption;

fn assert_opt_eq<T: CMov + Debug + Eq>(a: CndOption<T>, b: Option<T>) {
    let a_opt: Option<T> = a.into();
    assert_eq!(a_opt, b);
}

#[allow(clippy::all)]
fn run_cnd_option(opt_input: Option<u64>) {
    let cnd_input: CndOption<u64> = opt_input.clone().into();

    assert_eq!(cnd_input.is_some(), opt_input.is_some());
    assert_eq!(cnd_input.is_none(), opt_input.is_none());
    assert_eq!(
        cnd_input.clone().unwrap_or(1),
        opt_input.clone().unwrap_or(1)
    );
    assert_eq!(
        cnd_input.clone().unwrap_or_else(|| 1),
        opt_input.clone().unwrap_or_else(|| 1),
    );

    let mut cnd_input2 = cnd_input.clone();
    let mut opt_input2 = opt_input.clone();
    assert_opt_eq(cnd_input2.take(), opt_input2.take());
    assert_opt_eq(cnd_input2, opt_input2);

    let mut cnd_input3 = cnd_input.clone();
    let mut opt_input3 = opt_input.clone();
    assert_opt_eq(cnd_input3.replace(2), opt_input3.replace(2));
    assert_opt_eq(cnd_input3, opt_input3);

    let mut cnd_input4 = cnd_input.clone();
    let mut opt_input4 = opt_input.clone();
    assert_eq!(cnd_input4.insert(2), opt_input4.insert(2));
    assert_opt_eq(cnd_input4, opt_input4);

    let mut cnd_input5 = cnd_input.clone();
    let mut opt_input5 = opt_input.clone();
    assert_eq!(cnd_input5.get_or_insert(2), opt_input5.get_or_insert(2));
    assert_opt_eq(cnd_input5, opt_input5);

    assert_opt_eq(
        cnd_input.clone().map(|v| v + 1),
        opt_input.clone().map(|v| v + 1),
    );
    assert_eq!(
        cnd_input.clone().map_or(1, |v| v + 1),
        opt_input.clone().map_or(1, |v| v + 1),
    );
    assert_eq!(
        cnd_input.clone().map_or_else(|| 1, |v| v + 1),
        opt_input.clone().map_or_else(|| 1, |v| v + 1),
    );

    assert_opt_eq(
        cnd_input.clone().and(CndOption::new_some(1)),
        opt_input.clone().and(Some(1)),
    );
    assert_opt_eq::<u64>(
        cnd_input.clone().and(CndOption::new_none()),
        opt_input.clone().and(None),
    );

    assert_opt_eq(
        cnd_input.clone().and_then(|v| CndOption::new_some(v + 1)),
        opt_input.clone().and_then(|v| Some(v + 1)),
    );
    assert_opt_eq::<u64>(
        cnd_input.clone().and_then(|_| CndOption::new_none()),
        opt_input.clone().and_then(|_| None),
    );

    assert_opt_eq(
        cnd_input.clone().or(CndOption::new_some(2)),
        opt_input.clone().or(Some(2)),
    );
    assert_opt_eq(
        cnd_input.clone().or(CndOption::new_none()),
        opt_input.clone().or(None),
    );

    assert_opt_eq(
        cnd_input.clone().or_else(|| CndOption::new_some(2)),
        opt_input.clone().or_else(|| Some(2)),
    );
    assert_opt_eq(
        cnd_input.clone().or_else(|| CndOption::new_none()),
        opt_input.clone().or_else(|| None),
    );
}

#[test]
fn cnd_option_test() {
    run_cnd_option(Some(1));
    run_cnd_option(None);
}

#[test]
fn cnd_option_reveal_and_force() {
    let mut a: CndOption<u64> = CndOption::new_none();
    assert!(a.is_none());
    *a.force_some() = 9;
    assert!(a.is_some());
    assert_eq!(a.clone().unwrap(), 9);
    assert_eq!(a.clone().unwrap_unchecked(), 9);
    assert_eq!(CndOption::<u64>::new_none().unwrap_or_default(), 0);
    assert_eq!(CndOption::new_some(3u64).unwrap_or_default(), 3);

    let mut b: CndOption<u64> = CndOption::new(7, false);
    // the stored value stays in place while presence is false
    assert_eq!(b.clone().unwrap_unchecked(), 7);
    let got = *b.get_or_set(CndOption::new_some(5));
    assert_eq!(got, 5);
    assert!(b.is_some());

    let mut c: CndOption<u64> = CndOption::new_some(4);
    let got = *c.get_or_set(CndOption::new_some(5));
    assert_eq!(got, 4);

    let eq_l: CndOption<u64> = CndOption::new(1, false);
    let eq_r: CndOption<u64> = CndOption::new(2, false);
    // absent values are equal whatever their payloads hold
    assert!(eq_l == eq_r);
    assert!(CndOption::new_some(1u64) != CndOption::new_some(2u64));
    assert!(CndOption::new_some(1u64) != CndOption::new(1u64, false));
}

#[test]
fn cnd_option_is_itself_selectable() {
    for &choice in &[false, true] {
        let a: CndOption<(u64, bool)> = CndOption::new_some((1, true));
        let b: CndOption<(u64, bool)> = CndOption::new((9, false), false);
        let r = <CndOption<(u64, bool)> as CMov>::cnd_select(&a, &b, choice);
        assert_eq!(r.is_some(), !choice);
        assert_eq!(r.unwrap_unchecked(), if choice { (9, false) } else { (1, true) });

        let mut x: CndOption<u64> = CndOption::new_some(5);
        let mut y: CndOption<u64> = CndOption::new_none();
        <CndOption<u64> as CMov>::cnd_swap(&mut x, &mut y, choice);
        if choice {
            assert!(x.is_none() && y.is_some());
            assert_eq!(y.unwrap(), 5);
        } else {
            assert!(x.is_some() && y.is_none());
            assert_eq!(x.unwrap(), 5);
        }
    }
}
