use fw_env::env::FwEnv;
use fw_env::error::FwError;

fn crc32(payload: &[u8]) -> u32 {
    let crc = crc::Crc::<u32>::new(&crc::CRC_32_ISO_HDLC);
    let mut digest = crc.digest();
    digest.update(payload);
    digest.finalize()
}

/// A block as it sits on the device: little-endian checksum of the payload,
/// a flag byte when redundant, then the payload.
fn mk_block(payload: &[u8], redundant: bool) -> Vec<u8> {
    let mut block = crc32(payload).to_le_bytes().to_vec();
    if redundant {
        block.push(0x01);
    }
    block.extend_from_slice(payload);
    block
}

#[test]
fn decode_simple_block() {
    let block = mk_block(b"foo=bar\0\0", false);
    let env = FwEnv::read(&block, false).unwrap();
    assert_eq!(env.vars.len(), 1);
    assert_eq!(env.vars[0].0, b"foo".to_vec());
    assert_eq!(env.vars[0].1, b"bar".to_vec());
    assert_eq!(env.find_var(b"foo"), Some(&b"bar"[..]));
}

#[test]
fn checksum_gate_accepts_matching_crc() {
    let payload = b"bootdelay=3\0baudrate=115200\0\0more after the end";
    let block = mk_block(payload, false);
    let env = FwEnv::read(&block, false).unwrap();
    assert_eq!(env.vars.len(), 2);
}

#[test]
fn checksum_gate_rejects_any_single_bit_flip() {
    let payload = b"bootdelay=3\0\0";
    let block = mk_block(payload, false);
    for byte in 4..block.len() {
        for bit in 0..8 {
            let mut corrupt = block.clone();
            corrupt[byte] ^= 1 << bit;
            assert!(matches!(
                FwEnv::read(&corrupt, false),
                Err(FwError::BadCrc)
            ));
        }
    }
}

#[test]
fn stored_checksum_mismatch_rejected() {
    let payload = b"a=1\0\0";
    let mut block = (crc32(payload).wrapping_add(1)).to_le_bytes().to_vec();
    block.extend_from_slice(payload);
    assert!(matches!(FwEnv::read(&block, false), Err(FwError::BadCrc)));
}

#[test]
fn decode_twice_yields_identical_records() {
    let block = mk_block(b"a=1\0b=2\0c=3\0\0", false);
    let env1 = FwEnv::read(&block, false).unwrap();
    let env2 = FwEnv::read(&block, false).unwrap();
    assert_eq!(env1.vars, env2.vars);
}

#[test]
fn duplicate_key_first_match_wins() {
    let block = mk_block(b"a=1\0a=2\0\0", false);
    let env = FwEnv::read(&block, false).unwrap();
    assert_eq!(env.find_var(b"a"), Some(&b"1"[..]));
    assert_eq!(env.vars.len(), 2);
    assert_eq!(env.vars[1].0, b"a".to_vec());
    assert_eq!(env.vars[1].1, b"2".to_vec());
}

#[test]
fn malformed_record_rejected() {
    let block = mk_block(b"novalue\0\0", false);
    match FwEnv::read(&block, false) {
        Err(FwError::EnvVarSyntax(raw)) => assert_eq!(raw, b"novalue".to_vec()),
        _ => panic!("expected a malformed-variable failure"),
    }
}

#[test]
fn empty_key_rejected() {
    let block = mk_block(b"=x\0\0", false);
    match FwEnv::read(&block, false) {
        Err(FwError::EnvVarSyntax(raw)) => assert_eq!(raw, b"=x".to_vec()),
        _ => panic!("expected a malformed-variable failure for an empty key"),
    }
}

#[test]
fn malformed_record_never_yields_partial_store() {
    let block = mk_block(b"good=1\0bad\0also=fine\0\0", false);
    assert!(matches!(
        FwEnv::read(&block, false),
        Err(FwError::EnvVarSyntax(_))
    ));
}

#[test]
fn empty_payload_yields_empty_store() {
    let block = mk_block(b"", false);
    let env = FwEnv::read(&block, false).unwrap();
    assert!(env.vars.is_empty());
    assert_eq!(env.find_var(b"anything"), None);
}

#[test]
fn decoding_stops_at_first_empty_segment() {
    let block = mk_block(b"a=1\0\0b=2\0", false);
    let env = FwEnv::read(&block, false).unwrap();
    assert_eq!(env.vars.len(), 1);
    assert_eq!(env.find_var(b"b"), None);
}

#[test]
fn payload_without_terminator_still_decodes() {
    let block = mk_block(b"a=1", false);
    let env = FwEnv::read(&block, false).unwrap();
    assert_eq!(env.find_var(b"a"), Some(&b"1"[..]));
}

#[test]
fn redundant_block_skips_flag_byte() {
    let block = mk_block(b"version_os_b=20181217\0\0", true);
    let env = FwEnv::read(&block, true).unwrap();
    assert_eq!(env.find_var(b"version_os_b"), Some(&b"20181217"[..]));
}

#[test]
fn value_may_contain_equals() {
    let block = mk_block(b"k=a=b\0\0", false);
    let env = FwEnv::read(&block, false).unwrap();
    assert_eq!(env.find_var(b"k"), Some(&b"a=b"[..]));
}

#[test]
fn find_var_missing_key() {
    let block = mk_block(b"a=1\0\0", false);
    let env = FwEnv::read(&block, false).unwrap();
    assert_eq!(env.find_var(b"b"), None);
    assert_eq!(env.find_var(b""), None);
}
