use ledger_reports::qty::Qty;

#[test]
fn rounds_midpoint_away_from_zero_positive() {
    // 0.125 rounds to 0.13, not to the even 0.12
    let q = Qty { mantissa: 125, scale: 3 };
    assert_eq!(q.round_to_2(), Qty { mantissa: 13, scale: 2 });
}

#[test]
fn rounds_midpoint_away_from_zero_negative() {
    // -0.125 rounds to -0.13
    let q = Qty { mantissa: -125, scale: 3 };
    assert_eq!(q.round_to_2(), Qty { mantissa: -13, scale: 2 });
}

#[test]
fn round_keeps_coarse_scales() {
    let q = Qty { mantissa: 7, scale: 0 };
    assert_eq!(q.round_to_2(), Qty { mantissa: 7, scale: 0 });
}

#[test]
fn multiply_and_round_to_cents() {
    // 5.00 * 0.10 == 0.50
    let a = Qty { mantissa: 500, scale: 2 };
    let b = Qty { mantissa: 10, scale: 2 };
    assert_eq!(a.mul_round_to_2(b), Some(Qty { mantissa: 50, scale: 2 }));
}

#[test]
fn multiply_rounds_product_midpoint_away() {
    // 0.05 * 2.50 = 0.125 -> 0.13
    let a = Qty { mantissa: 5, scale: 2 };
    let b = Qty { mantissa: 250, scale: 2 };
    assert_eq!(a.mul_round_to_2(b), Some(Qty { mantissa: 13, scale: 2 }));
}

#[test]
fn addition_rescales_exactly() {
    // 1.5 + 2.25 == 3.75
    let a = Qty { mantissa: 15, scale: 1 };
    let b = Qty { mantissa: 225, scale: 2 };
    assert_eq!(a.checked_add(b), Some(Qty { mantissa: 375, scale: 2 }));
}

#[test]
fn addition_of_negatives() {
    // 100.00 + (-30.00) == 70.00
    let a = Qty { mantissa: 10000, scale: 2 };
    let b = Qty { mantissa: -3000, scale: 2 };
    assert_eq!(a.checked_add(b), Some(Qty { mantissa: 7000, scale: 2 }));
}
