use wgslsmith::codec::{decode_input, decode_output, encode_input, encode_output, DecodeError};
use wgslsmith::pipeline::{PipelineDescription, PipelineResource, ResourceKind};

#[test]
fn output_message_round_trips() {
    let buffers = vec![vec![1, 2, 3], vec![], vec![255, 0, 127]];
    let encoded = encode_output(&buffers);
    let decoded = decode_output(&encoded).unwrap();
    assert_eq!(decoded, buffers);
}

#[test]
fn empty_output_message_round_trips() {
    let buffers: Vec<Vec<u8>> = vec![];
    let encoded = encode_output(&buffers);
    assert_eq!(decode_output(&encoded).unwrap(), buffers);
}

#[test]
fn input_message_round_trips() {
    let shader = b"fn main() { let x = 1; }".to_vec();
    let desc = PipelineDescription {
        resources: vec![
            PipelineResource {
                kind: ResourceKind::UniformBuffer,
                group: 0,
                binding: 0,
                init: Some(vec![1, 2, 3, 4]),
            },
            PipelineResource {
                kind: ResourceKind::StorageBuffer,
                group: 0,
                binding: 1,
                init: None,
            },
        ],
    };
    let encoded = encode_input(&shader, &desc);
    let (shader2, desc2) = decode_input(&encoded).unwrap();
    assert_eq!(shader2, shader);
    assert_eq!(desc2.resources.len(), 2);
    assert_eq!(desc2.resources[0].kind, ResourceKind::UniformBuffer);
    assert_eq!(desc2.resources[0].group, 0);
    assert_eq!(desc2.resources[0].binding, 0);
    assert_eq!(desc2.resources[0].init, Some(vec![1, 2, 3, 4]));
    assert_eq!(desc2.resources[1].kind, ResourceKind::StorageBuffer);
    assert_eq!(desc2.resources[1].binding, 1);
    assert_eq!(desc2.resources[1].init, None);
}

#[test]
fn truncated_output_payload_is_a_decode_error() {
    let buffers = vec![vec![1, 2, 3, 4, 5]];
    let mut encoded = encode_output(&buffers);
    encoded.truncate(encoded.len() - 2);
    assert_eq!(decode_output(&encoded), Err(DecodeError::UnexpectedEnd));
}

#[test]
fn short_header_is_a_decode_error() {
    let data = vec![1, 0, 0];
    assert_eq!(decode_output(&data), Err(DecodeError::UnexpectedEnd));
}

#[test]
fn trailing_bytes_are_a_decode_error() {
    let buffers = vec![vec![9]];
    let mut encoded = encode_output(&buffers);
    encoded.push(0);
    assert_eq!(decode_output(&encoded), Err(DecodeError::TrailingBytes));
}

#[test]
fn unknown_resource_tag_is_a_decode_error() {
    let shader = b"s".to_vec();
    let desc = PipelineDescription {
        resources: vec![PipelineResource {
            kind: ResourceKind::StorageBuffer,
            group: 0,
            binding: 0,
            init: None,
        }],
    };
    let mut encoded = encode_input(&shader, &desc);
    // The resource kind tag sits right after the shader bytes and the
    // resource count: shader length prefix (8) + shader (1) + count (8).
    let tag_at = 8 + 1 + 8;
    encoded[tag_at] = 7;
    assert!(matches!(decode_input(&encoded), Err(DecodeError::InvalidTag)));
}

#[test]
fn group_out_of_range_is_a_decode_error() {
    let shader = b"s".to_vec();
    let desc = PipelineDescription {
        resources: vec![PipelineResource {
            kind: ResourceKind::StorageBuffer,
            group: 0,
            binding: 0,
            init: None,
        }],
    };
    let mut encoded = encode_input(&shader, &desc);
    // Overwrite the group field (8 bytes after the kind tag) with a value
    // above u32::MAX.
    let group_at = 8 + 1 + 8 + 1;
    for k in 0..8 {
        encoded[group_at + k] = 0xff;
    }
    assert!(matches!(decode_input(&encoded), Err(DecodeError::OutOfRange)));
}
