use mistake_agent::upload::{decode_pasted_image, encode_attachment, ext_for_mime, pasted_name, staged_names};

#[test]
fn ext_for_mime_maps_common_types() {
    assert_eq!(ext_for_mime("image/png"), "png");
    assert_eq!(ext_for_mime("image/jpeg"), "jpg");
    assert_eq!(ext_for_mime("image/webp"), "webp");
    assert_eq!(ext_for_mime("image/bmp"), "bmp");
    assert_eq!(ext_for_mime("application/octet-stream"), "png");
}

#[test]
fn ext_for_mime_ignores_case_and_spaces() {
    assert_eq!(ext_for_mime("  IMAGE/JPG "), "jpg");
    assert_eq!(ext_for_mime("Image/WebP"), "webp");
}

#[test]
fn staged_names_carry_the_prefix() {
    let (temp, kept) = staged_names("abc", "png");
    assert_eq!(temp, "mistake-agent-abc.png");
    assert_eq!(kept, "abc.png");
    assert_eq!(pasted_name("jpg"), "粘贴截图.jpg");
}

#[test]
fn pasted_image_roundtrips_through_base64() {
    let bytes = b"fake-clipboard-image-bytes".to_vec();
    let text = encode_attachment(&bytes);
    assert_eq!(text, "ZmFrZS1jbGlwYm9hcmQtaW1hZ2UtYnl0ZXM=");
    assert_eq!(decode_pasted_image(&format!("  {text}\n")).unwrap(), bytes);
}

#[test]
fn stage_clipboard_image_rejects_invalid_base64() {
    let err = decode_pasted_image("!!!not-base64!!!").unwrap_err();
    assert!(err.starts_with("图片数据解码失败："));
}
