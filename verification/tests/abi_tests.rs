use neoutl::abi::{pack_uniform_std, split_enum_options, uniform_size_std, FfiSlice, PluginError, StrRef};

#[test]
fn enum_options_split_on_nul() {
    assert_eq!(split_enum_options(""), Vec::<&str>::new());
    assert_eq!(split_enum_options("Linear"), vec!["Linear"]);
    assert_eq!(split_enum_options("Linear\0Ease In\0Ease Out"), vec!["Linear", "Ease In", "Ease Out"]);
    assert_eq!(split_enum_options("a\0\0b\0"), vec!["a", "", "b", ""]);
}

#[test]
fn uniform_sizes() {
    assert_eq!(uniform_size_std(0), 0);
    assert_eq!(uniform_size_std(1), 16);
    assert_eq!(uniform_size_std(4), 16);
    assert_eq!(uniform_size_std(5), 32);
}

#[test]
fn str_refs_and_slices() {
    assert_eq!(StrRef::from_str("neoutl").as_str(), "neoutl");
    assert_eq!(StrRef::empty().as_str(), "");
    static ITEMS: [u32; 3] = [1, 2, 3];
    let s = FfiSlice::from_static(&ITEMS);
    assert!(!s.is_empty());
    assert_eq!(s.as_slice(), &[1, 2, 3]);
    let e: FfiSlice<u32> = FfiSlice::empty();
    assert!(e.is_empty());
    assert!(e.as_slice().is_empty());
    static NONE: [u32; 0] = [];
    assert!(FfiSlice::from_static(&NONE).is_empty());
}

#[test]
fn plugin_error_messages() {
    assert_eq!(PluginError::Load("x.so".to_string()).message(), "読み込み失敗: x.so");
    assert_eq!(PluginError::Runtime("boom".to_string()).message(), "実行エラー: boom");
    assert_eq!(PluginError::MissingField("uuid").message(), "必須フィールド欠落: uuid");
    assert_eq!(PluginError::InvalidField("kind").message(), "フィールド型不正: kind");
    assert_eq!(PluginError::Unknown("w".to_string()).message(), "未知の識別子: w");
}

#[test]
fn uniform_packing_pads_rows() {
    let params = [1.0f32, -2.5];
    let bits: Vec<u32> = params.iter().map(|p| p.to_bits()).collect();
    let packed = pack_uniform_std(&bits);
    assert_eq!(packed.len(), 16);
    assert_eq!(&packed[0..4], &1.0f32.to_le_bytes());
    assert_eq!(&packed[4..8], &(-2.5f32).to_le_bytes());
    assert_eq!(&packed[8..16], &[0u8; 8]);
    assert!(pack_uniform_std(&[]).is_empty());
}

#[test]
fn split_enum_options_parts_join_back() {
    for joined in ["x", "a\0b", "\0", "a\0\0b\0", "\0\0lead"] {
        let parts = split_enum_options(joined);
        assert_eq!(parts.join("\0"), joined);
        assert_eq!(parts.len(), joined.matches('\0').count() + 1);
        assert!(parts.iter().all(|p| !p.contains('\0')));
    }
}
