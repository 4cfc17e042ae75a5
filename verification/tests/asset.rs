use regiusmark::asset::{Asset, AssetErrorKind};

fn get_asset(s: &str) -> Asset {
    Asset::from_str(s).unwrap()
}

#[test]
fn parse_valid_input() {
    let c = |asset: Asset, amount: &str| {
        assert_eq!(asset.amount.to_string(), amount);
    };

    c(get_asset("1.00000 GRAEL"), "100000");
    c(get_asset("-1.00000 GRAEL"), "-100000");
    c(get_asset(".10000 GRAEL"), "10000");
    c(get_asset("-.10000 GRAEL"), "-10000");
    c(get_asset("0.10000 GRAEL"), "10000");
    c(get_asset("0.00000 GRAEL"), "0");
    c(get_asset("-0.00000 GRAEL"), "0");
}

#[test]
fn asset_to_str() {
    let c = |asset: Asset, s: &str| {
        assert_eq!(asset.to_string(), s);
    };
    c(get_asset("1.00001 GRAEL"), "1.00001 GRAEL");
    c(get_asset("0.00001 GRAEL"), "0.00001 GRAEL");
    c(get_asset("0.00010 GRAEL"), "0.00010 GRAEL");
    c(get_asset("-0.00001 GRAEL"), "-0.00001 GRAEL");
    c(get_asset(".00001 GRAEL"), "0.00001 GRAEL");
    c(get_asset(".10000 GRAEL"), "0.10000 GRAEL");
    c(get_asset("1.00000 GRAEL"), "1.00000 GRAEL");
}

#[test]
fn fail_parsing_invalid_input() {
    let c = |asset: &str, err: AssetErrorKind| {
        let e = Asset::from_str(asset).err().unwrap();
        assert_eq!(e.kind, err);
    };

    c("1b10.00000 GRAEL", AssetErrorKind::InvalidAmount);
    c("a100.00000 GRAEL", AssetErrorKind::InvalidAmount);
    c("100.0000a GRAEL", AssetErrorKind::InvalidAmount);

    c("1 GRAEL", AssetErrorKind::InvalidFormat);
    c("1. GRAEL", AssetErrorKind::InvalidFormat);
    c(".1 GRAEL", AssetErrorKind::InvalidFormat);
    c("-.1 GRAEL", AssetErrorKind::InvalidFormat);
    c("0.1 GRAEL", AssetErrorKind::InvalidFormat);
    c("1.0 GRAEL", AssetErrorKind::InvalidFormat);
    c("0 GRAEL", AssetErrorKind::InvalidFormat);
    c("-0.0 GRAEL", AssetErrorKind::InvalidFormat);
    c("-1.0 GRAEL", AssetErrorKind::InvalidFormat);

    c("1234567890123456789012 GRAEL", AssetErrorKind::StrTooLarge);
    c("1.000000 GRAEL", AssetErrorKind::InvalidFormat);
    c("1.0000", AssetErrorKind::InvalidFormat);

    c("1.00000 GRAEL a", AssetErrorKind::InvalidAssetType);
    c("1.00000 grael", AssetErrorKind::InvalidAssetType);
}

#[test]
fn perform_arithmetic() {
    let c = |asset: Asset, amount: &str| {
        assert_eq!(asset.to_string(), amount);
    };

    let a = get_asset("123.45600 GRAEL");
    c(a.checked_add(get_asset("2.00000 GRAEL")).unwrap(), "125.45600 GRAEL");
    c(a.checked_add(get_asset("-2.00000 GRAEL")).unwrap(), "121.45600 GRAEL");
    c(a.checked_add(get_asset(".00001 GRAEL")).unwrap(), "123.45601 GRAEL");
    c(a.checked_sub(get_asset("2.00000 GRAEL")).unwrap(), "121.45600 GRAEL");
    c(a.checked_sub(get_asset("-2.00000 GRAEL")).unwrap(), "125.45600 GRAEL");
    c(
        a.checked_mul(get_asset("100000.11111 GRAEL")).unwrap(),
        "12345613.71719 GRAEL",
    );
    c(
        a.checked_mul(get_asset("-100000.11111 GRAEL")).unwrap(),
        "-12345613.71719 GRAEL",
    );
    c(a.checked_div(get_asset("23.00000 GRAEL")).unwrap(), "5.36765 GRAEL");
    c(a.checked_div(get_asset("-23.00000 GRAEL")).unwrap(), "-5.36765 GRAEL");
    c(a.checked_pow(2).unwrap(), "15241.38393 GRAEL");
    c(a.checked_pow(3).unwrap(), "1881640.29520 GRAEL");
    c(a, "123.45600 GRAEL");

    c(get_asset("1.00020 GRAEL").checked_pow(1000).unwrap(), "1.22137 GRAEL");
    c(
        get_asset("10.00000 GRAEL").checked_div(get_asset("2.00000 GRAEL")).unwrap(),
        "5.00000 GRAEL",
    );
    c(
        get_asset("5.00000 GRAEL").checked_div(get_asset("10.00000 GRAEL")).unwrap(),
        "0.50000 GRAEL",
    );

    assert!(a.checked_div(get_asset("0.00000 GRAEL")).is_none());
}

#[test]
fn invalid_arithmetic() {
    let a = get_asset("10.00000 GRAEL");
    let b = get_asset("92233720368547.75807 GRAEL");

    assert_eq!(a.checked_add(b), None);
    assert_eq!(a.checked_mul(Asset::new(-1)).unwrap().checked_sub(b), None);
    assert_eq!(a.checked_div(Asset::new(0)), None);
    assert_eq!(a.checked_mul(b), None);
}

#[test]
fn mul_exact_value() {
    let a = Asset::new(12_345_600);
    let b = Asset::new(10_000_011_111);
    assert_eq!(a.checked_mul(b), Some(Asset::new(1_234_561_371_719)));
    assert_eq!(Asset::new(i64::MAX).checked_add(Asset::new(1)), None);
}
