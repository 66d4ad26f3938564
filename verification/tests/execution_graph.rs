//! The execution graph: its contents for the built-in model, and its bytes.

use compute_image::compile::execution_graph::{
    sidecar_byte_len, AttentionKind, CompactionEpoch, DeviceCapability, DraftSubGraph,
    ExecutionGraphDescriptor, LayerExecutionNode, NodeKind, SidecarElementFormat,
    EXECUTION_GRAPH_MAGIC,
};

fn u32_at(bytes: &[u8], at: usize) -> u32 {
    u32::from_le_bytes([bytes[at], bytes[at + 1], bytes[at + 2], bytes[at + 3]])
}

fn u16_at(bytes: &[u8], at: usize) -> u16 {
    u16::from_le_bytes([bytes[at], bytes[at + 1]])
}

#[test]
fn gemma4_12b_graph_properties() {
    let graph = ExecutionGraphDescriptor::gemma4_12b();
    assert_eq!(graph.num_layers, 48);
    assert_eq!(graph.num_draft_layers, 4);
    assert_eq!(graph.num_compaction_epochs, 8);
    assert_eq!(graph.node_count, 59);
    assert_eq!(graph.layers.len(), 59);
    assert_eq!(graph.compaction_epochs.len(), 8);
    assert!(graph.draft_sub_graph.is_some());

    assert_eq!(graph.layers[0].node_kind, NodeKind::VisionPatchEmbed as u8);
    assert_eq!(graph.layers[0].hidden_dim, 6912);
    assert_eq!(graph.layers[1].node_kind, NodeKind::VisionFinalProjection as u8);
    assert_eq!(graph.layers[1].hidden_dim, 3840);
    assert_eq!(graph.layers[2].node_kind, NodeKind::AudioFrameEmbed as u8);
    assert_eq!(graph.layers[2].hidden_dim, 2560);
    assert_eq!(graph.layers[3].node_kind, NodeKind::AudioProjection as u8);
    assert_eq!(graph.layers[3].hidden_dim, 3840);
    assert_eq!(graph.layers[4].node_kind, NodeKind::EmbeddingAssembly as u8);
    assert_eq!(graph.layers[4].hidden_dim, 3840);
    for mm in 0..5 {
        assert_eq!(graph.layers[mm].attention_kind, 2);
        assert_eq!(graph.layers[mm].device_capability, DeviceCapability::Gpu as u8);
        assert_eq!(graph.layers[mm].layer_index, 0);
    }

    let swa_layers = [5u8, 11, 17, 23, 29, 35, 41, 47];
    for i in 0u8..48 {
        let layer = &graph.layers[(i + 5) as usize];
        assert_eq!(layer.node_kind, NodeKind::DecoderLayer as u8);
        assert_eq!(layer.layer_index, i as u32);
        let is_swa = swa_layers.contains(&i);
        assert_eq!(
            layer.attention_kind,
            if is_swa {
                AttentionKind::SlidingWindow as u8
            } else {
                AttentionKind::FullAttention as u8
            },
            "mismatch at layer {i}"
        );
        assert_eq!(layer.head_dim, if is_swa { 512 } else { 256 });
        assert_eq!(layer.hidden_dim, 3840);
        assert_eq!(layer.num_heads, 8);
        assert_eq!(layer.device_capability, DeviceCapability::Both as u8);
    }

    for (idx, epoch) in graph.compaction_epochs.iter().enumerate() {
        assert_eq!(epoch.epoch_index, idx as u8);
        assert_eq!(epoch.trigger_layer, swa_layers[idx]);
        assert_eq!(epoch.tier_count, 3);
        assert_eq!(epoch.compression_ratio[..3], [85, 51, 25]);
        assert_eq!(epoch.tier_boundaries, [4096, 32768, 262144]);
        assert_eq!(epoch.access_threshold, 100);
    }

    let draft = graph.draft_sub_graph.as_ref().unwrap();
    assert_eq!(draft.num_layers, 4);
    assert_eq!(draft.hidden_dim, 1024);

    for d in 0..4 {
        let node = &graph.layers[55 + d];
        assert_eq!(node.node_kind, NodeKind::DraftLayer as u8);
        assert_eq!(node.layer_index, d as u32);
        assert_eq!(node.head_dim, 128);
        assert_eq!(node.hidden_dim, 1024);
        assert_eq!(node.num_heads, 8);
        assert_eq!(node.attention_kind, 1);
        assert_eq!(node.device_capability, DeviceCapability::Both as u8);
        assert_eq!(node.compaction_epoch, 0xFF);
    }

    let pre = &graph.layers[53];
    assert_eq!(pre.node_kind, NodeKind::DraftPreProjection as u8);
    assert_eq!(pre.hidden_dim, 3840);
    assert_eq!(pre.attention_kind, 2);

    let post = &graph.layers[54];
    assert_eq!(post.node_kind, NodeKind::DraftPostProjection as u8);
    assert_eq!(post.hidden_dim, 1024);
    assert_eq!(post.attention_kind, 2);
}

#[test]
fn to_bytes_roundtrip() {
    let graph = ExecutionGraphDescriptor::gemma4_12b();
    let bytes = graph.to_bytes();

    assert_eq!(bytes[0..8], EXECUTION_GRAPH_MAGIC);
    assert_eq!(u16_at(&bytes, 8), 1);
    assert_eq!(u16_at(&bytes, 10), 48);
    assert_eq!(bytes[12], 4);
    assert_eq!(bytes[13], 8);
    assert_eq!(u32_at(&bytes, 14), 59);
    assert_eq!(bytes[18], 0);
    assert_eq!(bytes[19], 0);

    let expected_min = 20 + 59 * 48 + 8 * 24 + 1;
    let expected_pad = 3;
    let expected_total = expected_min + expected_pad + 56;
    assert_eq!(bytes.len(), expected_total, "total size mismatch");

    let base = 20 + 59 * 48 + 8 * 24;
    assert_eq!(bytes[base], 1, "has_draft should be 1");

    let vision_patch_offset = 20;
    assert_eq!(bytes[vision_patch_offset], NodeKind::VisionPatchEmbed as u8);
    assert_eq!(bytes[vision_patch_offset + 1], 2);
    assert_eq!(bytes[vision_patch_offset + 2], DeviceCapability::Gpu as u8);
    assert_eq!(bytes[vision_patch_offset + 3], 0xFF);
    assert_eq!(u32_at(&bytes, 24), 0);
    assert_eq!(u16_at(&bytes, vision_patch_offset + 8), 256);
    assert_eq!(u32_at(&bytes, 32), 6912);

    let decoder0_offset = 20 + 5 * 48;
    assert_eq!(bytes[decoder0_offset], NodeKind::DecoderLayer as u8);
    assert_eq!(bytes[decoder0_offset + 1], AttentionKind::FullAttention as u8);
    assert_eq!(u32_at(&bytes, decoder0_offset + 4), 0);
    assert_eq!(u16_at(&bytes, decoder0_offset + 8), 256);
    assert_eq!(u32_at(&bytes, decoder0_offset + 12), 3840);

    let swa_decoder_offset = 20 + 10 * 48;
    assert_eq!(bytes[swa_decoder_offset], NodeKind::DecoderLayer as u8);
    assert_eq!(bytes[swa_decoder_offset + 1], AttentionKind::SlidingWindow as u8);
    assert_eq!(u32_at(&bytes, swa_decoder_offset + 4), 5);
    assert_eq!(u16_at(&bytes, swa_decoder_offset + 8), 512);

    let epoch0_offset = 20 + 59 * 48;
    assert_eq!(bytes[epoch0_offset], 0);
    assert_eq!(bytes[epoch0_offset + 1], 5);
    assert_eq!(bytes[epoch0_offset + 2], 3);

    let draft0_offset = 20 + 55 * 48;
    assert_eq!(bytes[draft0_offset], NodeKind::DraftLayer as u8);
    assert_eq!(bytes[draft0_offset + 1], 1);
    assert_eq!(u32_at(&bytes, draft0_offset + 4), 0);
    assert_eq!(u16_at(&bytes, draft0_offset + 8), 128);
    assert_eq!(u32_at(&bytes, draft0_offset + 12), 1024);

    let draft_offset = base + 1 + expected_pad;
    assert_eq!(u32_at(&bytes, draft_offset), 4);
    assert_eq!(u32_at(&bytes, draft_offset + 4), 1024);
}

#[test]
fn to_bytes_default() {
    let graph = ExecutionGraphDescriptor::default();
    let bytes = graph.to_bytes();
    assert_eq!(bytes[0..8], EXECUTION_GRAPH_MAGIC);
    assert_eq!(bytes.len(), 21);
    assert_eq!(bytes[8..10], [1u8, 0]);
    assert_eq!(bytes[10..12], [0u8, 0]);
    assert_eq!(bytes[12], 0);
    assert_eq!(bytes[13], 0);
    assert_eq!(u32_at(&bytes, 14), 0);
    assert_eq!(bytes[18], 0);
    assert_eq!(bytes[19], 0);
}

#[test]
fn default_has_correct_magic() {
    let graph = ExecutionGraphDescriptor::default();
    assert_eq!(graph.magic, EXECUTION_GRAPH_MAGIC);
    assert_eq!(graph.magic, *b"PRMEXEC1");
    assert_eq!(graph.version, 1);
    assert!(graph.layers.is_empty());
    assert!(graph.compaction_epochs.is_empty());
    assert!(graph.draft_sub_graph.is_none());
}

#[test]
fn layer_execution_node_is_repr_c() {
    assert_eq!(std::mem::size_of::<LayerExecutionNode>(), 48);
    assert_eq!(std::mem::align_of::<LayerExecutionNode>(), 8);
}

#[test]
fn compaction_epoch_is_repr_c() {
    assert_eq!(std::mem::size_of::<CompactionEpoch>(), 24);
    assert_eq!(std::mem::align_of::<CompactionEpoch>(), 4);
}

#[test]
fn draft_sub_graph_is_repr_c() {
    assert_eq!(std::mem::size_of::<DraftSubGraph>(), 56);
    assert_eq!(std::mem::align_of::<DraftSubGraph>(), 8);
}

#[test]
fn kinds_keep_their_numbers() {
    assert_eq!(NodeKind::DecoderLayer as u8, 0);
    assert_eq!(NodeKind::VisionPatchEmbed as u8, 1);
    assert_eq!(NodeKind::EmbeddingAssembly as u8, 5);
    assert_eq!(NodeKind::DraftPostProjection as u8, 8);
    assert_eq!(AttentionKind::SlidingWindow as u8, 0);
    assert_eq!(AttentionKind::FullAttention as u8, 1);
    assert_eq!(DeviceCapability::Absent as u8, 0);
    assert_eq!(DeviceCapability::Gpu as u8, 1);
    assert_eq!(DeviceCapability::Both as u8, 3);
}

#[test]
fn a_graph_reads_back_from_its_bytes() {
    let graph = ExecutionGraphDescriptor::gemma4_12b();
    let bytes = graph.to_bytes();
    let back = ExecutionGraphDescriptor::from_bytes(&bytes).unwrap();
    assert_eq!(back.to_bytes(), bytes);
    assert_eq!(back.layers.len(), 59);
    assert_eq!(back.layers[10].layer_index, 5);
    assert_eq!(back.draft_sub_graph, graph.draft_sub_graph);
}

#[test]
fn bytes_that_are_no_graph_are_refused() {
    assert_eq!(
        ExecutionGraphDescriptor::from_bytes(&[0u8; 10]).unwrap_err(),
        "execution graph too short"
    );
    let mut bytes = ExecutionGraphDescriptor::default().to_bytes();
    bytes[0] = b'X';
    assert_eq!(
        ExecutionGraphDescriptor::from_bytes(&bytes).unwrap_err(),
        format!("bad exec graph magic: {:?}", &bytes[0..8])
    );
}

#[test]
fn sidecars_take_bytes_by_format() {
    assert_eq!(sidecar_byte_len(10, SidecarElementFormat::F16), Some(20));
    assert_eq!(sidecar_byte_len(u32::MAX, SidecarElementFormat::F32), Some(17179869180));
    assert_eq!(sidecar_byte_len(7, SidecarElementFormat::Absent), Some(0));
}
