use rspack_cache::shard::{hex_text, shard_for_key, ShardAddr};
use rustc_hash::FxHasher;
use std::hash::Hasher;

fn fx(key: &[u8]) -> u64 {
    let mut hasher = FxHasher::default();
    hasher.write(key);
    hasher.finish()
}

#[test]
fn hex_text_is_sixteen_lower_case_digits() {
    assert_eq!(hex_text(0x0123456789abcdef, 0, 16), "0123456789abcdef");
    assert_eq!(hex_text(0, 0, 16), "0000000000000000");
    assert_eq!(hex_text(u64::MAX, 0, 16), "ffffffffffffffff");
    assert_eq!(hex_text(0xfe, 0, 16), "00000000000000fe");
}

#[test]
fn hex_text_gives_the_digits_asked_for() {
    assert_eq!(hex_text(0x0123456789abcdef, 0, 2), "01");
    assert_eq!(hex_text(0x0123456789abcdef, 2, 16), "23456789abcdef");
    assert_eq!(hex_text(0x0123456789abcdef, 5, 5), "");
    assert_eq!(hex_text(0x0123456789abcdef, 15, 16), "f");
}

#[test]
fn hex_text_agrees_with_std_formatting() {
    for digest in [1u64, 0x10, 0xdead_beef, 0x8000_0000_0000_0000, 0x517c_c1b7_2722_0a95] {
        assert_eq!(hex_text(digest, 0, 16), format!("{:016x}", digest));
    }
}

#[test]
fn shard_names_split_the_digest() {
    let addr = ShardAddr { scope: "modules", digest: 0xab00_0000_0000_00cd };
    assert_eq!(addr.dir_name(), "ab");
    assert_eq!(addr.file_name(), "000000000000cd");
    assert_eq!(format!("{}{}", addr.dir_name(), addr.file_name()), format!("{:016x}", addr.digest));
}

#[test]
fn shard_for_key_hashes_the_key() {
    for key in [&b"a.js"[..], b"b.js", b"", b"a much longer key than eight bytes"] {
        let addr = shard_for_key("modules", key);
        assert_eq!(addr.scope, "modules");
        assert_eq!(addr.digest, fx(key));
    }
    assert_ne!(shard_for_key("modules", b"a.js").digest, shard_for_key("modules", b"b.js").digest);
}

#[test]
fn shard_for_key_does_not_depend_on_the_scope() {
    assert_eq!(shard_for_key("modules", b"a.js").digest, shard_for_key("assets", b"a.js").digest);
}

#[test]
fn shard_for_key_of_the_empty_key_is_zero() {
    assert_eq!(shard_for_key("modules", b"").digest, 0);
    assert_eq!(shard_for_key("modules", b"").dir_name(), "00");
}

#[test]
fn shard_for_key_of_a_one_byte_key() {
    let addr = shard_for_key("modules", b"a");
    assert_eq!(addr.digest, 0x61u64.wrapping_mul(0x517c_c1b7_2722_0a95));
    assert_eq!(addr.digest, 0xe045_6665_d3e6_0275);
    assert_eq!(addr.dir_name(), "e0");
    assert_eq!(addr.file_name(), "456665d3e60275");
}
