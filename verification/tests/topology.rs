use ordered_pipeline::bench::{
    decimal_text, frame, generate_test_script, script_text, test_group, workload_dir, TestGroup,
    ITERATION_ARG,
};
use ordered_pipeline::blocks::{reduce, slice_blocks, Buffer, BLOCK_SIZE};
use ordered_pipeline::graph::{EdgeError, Graph, StageKind};
use ordered_pipeline::layout::build_pipeline;
use ordered_pipeline::stage_id::StageId;

#[test]
fn graph_hands_out_handles_in_order() {
    let mut graph = Graph::new();
    assert_eq!(graph.stage_count(), 0);
    assert_eq!(graph.add_node(StageKind::Source), StageId(0));
    assert_eq!(graph.add_node(StageKind::Worker), StageId(1));
    assert_eq!(graph.add_node(StageKind::Sink), StageId(2));
    assert_eq!(StageId(2).index(), 2);
    assert_eq!(graph.stage_count(), 3);
    assert_eq!(graph.kind(StageId(1)), Some(StageKind::Worker));
    assert_eq!(graph.kind(StageId(3)), None);
    assert_eq!(graph.destinations(StageId(0)), Some(vec![]));
    assert_eq!(graph.destinations(StageId(9)), None);
}

#[test]
fn edges_keep_their_order() {
    let mut graph = Graph::new();
    let source = graph.add_node(StageKind::Source);
    let a = graph.add_node(StageKind::Worker);
    let b = graph.add_node(StageKind::Worker);
    let c = graph.add_node(StageKind::Worker);
    assert_eq!(graph.add_edge(source, vec![c, a]), Ok(()));
    assert_eq!(graph.add_edge(source, vec![b]), Ok(()));
    assert_eq!(graph.destinations(source), Some(vec![c, a, b]));
}

#[test]
fn refused_edges_change_nothing() {
    let mut graph = Graph::new();
    let source = graph.add_node(StageKind::Source);
    let worker = graph.add_node(StageKind::Worker);
    assert_eq!(graph.add_edge(source, vec![worker]), Ok(()));
    assert_eq!(graph.add_edge(StageId(7), vec![worker]), Err(EdgeError::UnknownStage));
    assert_eq!(graph.add_edge(source, vec![StageId(7)]), Err(EdgeError::UnknownStage));
    assert_eq!(graph.add_edge(source, vec![worker]), Err(EdgeError::DuplicateDestination));
    assert_eq!(graph.add_edge(worker, vec![source, source]), Err(EdgeError::DuplicateDestination));
    // An unknown handle is reported before a duplicate.
    assert_eq!(graph.add_edge(source, vec![worker, StageId(7)]), Err(EdgeError::UnknownStage));
    assert_eq!(graph.destinations(source), Some(vec![worker]));
    assert_eq!(graph.destinations(worker), Some(vec![]));
}

#[test]
fn producers_are_the_stages_that_send() {
    let mut graph = Graph::new();
    let sink = graph.add_node(StageKind::Sink);
    let source = graph.add_node(StageKind::Source);
    let a = graph.add_node(StageKind::Worker);
    let b = graph.add_node(StageKind::Worker);
    graph.add_edge(a, vec![sink]).unwrap();
    graph.add_edge(b, vec![sink]).unwrap();
    graph.add_edge(source, vec![a, b]).unwrap();
    assert_eq!(graph.producers(sink), vec![a, b]);
    assert_eq!(graph.producers(a), vec![source]);
    assert_eq!(graph.producers(source), vec![]);
}

#[test]
fn compression_pipeline_has_one_level() {
    let layout = build_pipeline(3, 1, true).unwrap();
    assert_eq!(layout.source, StageId(0));
    assert_eq!(layout.sink, Some(StageId(1)));
    assert_eq!(layout.lanes, vec![vec![StageId(2)], vec![StageId(3)], vec![StageId(4)]]);
    assert_eq!(layout.graph.stage_count(), 5);
    assert_eq!(
        layout.graph.destinations(StageId(0)),
        Some(vec![StageId(2), StageId(3), StageId(4)])
    );
    for worker in 2..5 {
        assert_eq!(layout.graph.destinations(StageId(worker)), Some(vec![StageId(1)]));
        assert_eq!(layout.graph.kind(StageId(worker)), Some(StageKind::Worker));
    }
    assert_eq!(layout.graph.kind(StageId(0)), Some(StageKind::Source));
    assert_eq!(layout.graph.kind(StageId(1)), Some(StageKind::Sink));
    assert_eq!(layout.graph.producers(StageId(1)), vec![StageId(2), StageId(3), StageId(4)]);
}

#[test]
fn two_level_pipeline_chains_each_lane() {
    let layout = build_pipeline(2, 2, true).unwrap();
    assert_eq!(layout.lanes, vec![vec![StageId(2), StageId(3)], vec![StageId(4), StageId(5)]]);
    assert_eq!(layout.graph.destinations(StageId(0)), Some(vec![StageId(2), StageId(4)]));
    assert_eq!(layout.graph.destinations(StageId(2)), Some(vec![StageId(3)]));
    assert_eq!(layout.graph.destinations(StageId(3)), Some(vec![StageId(1)]));
    assert_eq!(layout.graph.destinations(StageId(4)), Some(vec![StageId(5)]));
    assert_eq!(layout.graph.destinations(StageId(5)), Some(vec![StageId(1)]));
    assert_eq!(layout.graph.producers(StageId(1)), vec![StageId(3), StageId(5)]);
}

#[test]
fn filter_chain_without_sink() {
    let layout = build_pipeline(2, 5, false).unwrap();
    assert_eq!(layout.sink, None);
    assert_eq!(layout.graph.stage_count(), 11);
    assert_eq!(layout.lanes[1], (6..11).map(StageId).collect::<Vec<_>>());
    assert_eq!(layout.graph.destinations(StageId(0)), Some(vec![StageId(1), StageId(6)]));
    assert_eq!(layout.graph.destinations(StageId(4)), Some(vec![StageId(5)]));
    assert_eq!(layout.graph.destinations(StageId(5)), Some(vec![]));
    assert_eq!(layout.graph.destinations(StageId(10)), Some(vec![]));
}

#[test]
fn pipelines_need_workers() {
    assert!(build_pipeline(0, 1, true).is_none());
    assert!(build_pipeline(1, 0, true).is_none());
    assert!(build_pipeline(usize::MAX, 1, true).is_none());
    assert!(build_pipeline(usize::MAX / 2, 3, false).is_none());
}

#[test]
fn buffer_new_keeps_its_arguments() {
    let block = Buffer::new(vec![1, 2, 3], 4, 2);
    assert_eq!(block.buffer, vec![1, 2, 3]);
    assert_eq!(block.order, 4);
    assert_eq!(block.size, 2);
    assert_eq!(BLOCK_SIZE, 900000);
}

#[test]
fn slicing_cuts_whole_blocks_and_one_short_block() {
    let input: Vec<u8> = (0..10).collect();
    let blocks = slice_blocks(&input, 4).unwrap();
    assert_eq!(
        blocks,
        vec![
            Buffer::new(vec![0, 1, 2, 3], 0, 0),
            Buffer::new(vec![4, 5, 6, 7], 1, 0),
            Buffer::new(vec![8, 9], 2, 0),
        ]
    );
}

#[test]
fn slicing_edge_cases() {
    assert_eq!(slice_blocks(&vec![], 4), Some(vec![]));
    assert_eq!(slice_blocks(&vec![], 0), Some(vec![]));
    assert_eq!(slice_blocks(&vec![1], 0), None);
    assert_eq!(slice_blocks(&vec![1, 2, 3, 4], 4), Some(vec![Buffer::new(vec![1, 2, 3, 4], 0, 0)]));
    assert_eq!(slice_blocks(&vec![1, 2], 9), Some(vec![Buffer::new(vec![1, 2], 0, 0)]));
    let eight = slice_blocks(&(0..8).collect(), 4).unwrap();
    assert_eq!(eight.len(), 2);
    assert_eq!(eight[1].buffer, vec![4, 5, 6, 7]);
}

#[test]
fn reduce_joins_valid_bytes_in_block_order() {
    let outputs = vec![
        Buffer::new(vec![7, 8, 0, 0], 2, 2),
        Buffer::new(vec![1, 2, 3, 0], 0, 3),
        Buffer::new(vec![4, 5, 6], 1, 3),
        Buffer::new(vec![9, 9], 3, 0),
    ];
    assert_eq!(reduce(outputs), Some(vec![1, 2, 3, 4, 5, 6, 7, 8]));
    assert_eq!(reduce(vec![]), Some(vec![]));
}

#[test]
fn reduce_refuses_a_size_beyond_the_buffer() {
    let outputs = vec![Buffer::new(vec![1, 2], 0, 2), Buffer::new(vec![3], 1, 2)];
    assert_eq!(reduce(outputs), None);
}

#[test]
fn slicing_then_reducing_restores_the_input() {
    let input: Vec<u8> = (0..=255u8).cycle().take(1000).collect();
    let mut blocks = slice_blocks(&input, 64).unwrap();
    for block in blocks.iter_mut() {
        block.size = block.buffer.len();
    }
    blocks.reverse();
    assert_eq!(reduce(blocks), Some(input));
}

#[test]
fn test_groups_name_directory_and_scripts() {
    let groups = generate_test_script(10);
    assert_eq!(groups.len(), 4);
    let dirs: Vec<String> = groups.iter().map(|group| group.pwd()).collect();
    assert_eq!(dirs, vec!["../bzip2", "../eye-detector", "../image-processing", "../micro-bench"]);
    for group in &groups {
        assert_eq!(group.script_count(), 7);
    }
    assert_eq!(groups[0].script(0), Some("../bzip2/test_sequential.sh".to_string()));
    assert_eq!(groups[1].script(2), Some("../eye-detector/test_std-threads.sh".to_string()));
    assert_eq!(groups[3].script(6), Some("../micro-bench/test_dagrs.sh".to_string()));
    assert_eq!(groups[3].script(7), None);
    assert_eq!(groups[3].body(7), None);
}

#[test]
fn test_group_pieces() {
    let names: Vec<&str> = (0..7).map(|i| frame(i).unwrap()).collect();
    assert_eq!(
        names,
        vec!["sequential", "rust-ssp", "std-threads", "tokio", "rayon", "pipeliner", "dagrs"]
    );
    assert_eq!(frame(7), None);
    assert_eq!(workload_dir(2), Some("../image-processing"));
    assert_eq!(workload_dir(4), None);
    let group = test_group(2, 10).unwrap();
    assert_eq!(group.pwd(), "../image-processing");
    assert_eq!(group.script(4), Some("../image-processing/test_rayon.sh".to_string()));
    assert!(test_group(4, 10).is_none());
    let own = TestGroup::new("here".to_string(), vec!["a.sh".to_string()]);
    assert_eq!(own.pwd(), "here");
    assert_eq!(own.script(0), Some("a.sh".to_string()));
    assert_eq!(own.body(0), None);
}

#[test]
fn decimal_text_of_numbers() {
    assert_eq!(decimal_text(0), "0");
    assert_eq!(decimal_text(7), "7");
    assert_eq!(decimal_text(10), "10");
    assert_eq!(decimal_text(2048), "2048");
    assert_eq!(decimal_text(usize::MAX), usize::MAX.to_string());
}

const SCRIPT_START: &str = "#!/bin/bash\n\niteration=\nwhile [[ $# -gt 0 ]]; do\n    case \"$1\" in\n\
                --iteration)\n            \
                iteration=\"$2\"\n        \
                    shift 2\n            \
                    ;;\n        \
                    *)\n        \
                        echo \"Unknown parameter: $1\"\n\
                                    exit 1\n\
                                                ;;\n\
                                                    esac\n\
                                                    done\n\
                                                    \n\
                if [[ -z \"$iteration\" ]]; then\n\
                    echo \"Error: --iteration argument is required.\"\n\
                        exit 1\n\
                fi\n\
            \n\
        if ! [[ \"$iteration\" =~ ^[0-9]+$ ]]; then\n\
        echo \"Error: --iteration must be a positive integer.\"\n\
        exit 1\n\
        fi\n";

#[test]
fn script_start_reads_the_iteration() {
    assert_eq!(ITERATION_ARG, SCRIPT_START);
}

#[test]
fn micro_bench_script_text() {
    let expected = format!(
        "{2}rm logs/{0}_*_iter${{iteration}}*.log\n\
         ./target/release/micro-bench {0} 2048 {1} 3000 2000 > logs/{0}_iter${{iteration}}.log 2>&1\n",
        "tokio", 10, SCRIPT_START
    );
    assert_eq!(script_text(3, 3, 10), Some(expected));
}

#[test]
fn image_processing_script_text() {
    let expected = format!(
        "{2}rm logs/{0}_*_iter${{iteration}}*.log\n\
    ./target/release/image-processing {0} {1} input_big > logs/{0}_big_iter${{iteration}}.log 2>&1\n\
    ./target/release/image-processing {0} {1} input_mixed > logs/{0}_mixed_iter${{iteration}}.log 2>&1\n\
    ./target/release/image-processing {0} {1} input_small > logs/{0}_small_iter${{iteration}}.log 2>&1\n",
        "rust-ssp", 128, SCRIPT_START
    );
    assert_eq!(script_text(2, 1, 128), Some(expected));
}

#[test]
fn eye_detector_script_text() {
    let expected = format!(
        "{2}rm logs/{0}_*_iter${{iteration}}*.log\n\
            rm output_{0}.avi\n\
    ./target/release/eye-detector {0} {1} ./inputs/mixed_15s.mp4 > logs/{0}_mixed_iter${{iteration}}.log 2>&1\n\
    ./target/release/eye-detector {0} {1} ./inputs/one_face_15s.mp4 > logs/{0}_one_face_iter${{iteration}}.log 2>&1\n\
    ./target/release/eye-detector {0} {1} ./inputs/several_faces_15s.mp4 > logs/{0}_several_faces_iter${{iteration}}.log 2>&1\n",
        "dagrs", 1, SCRIPT_START
    );
    assert_eq!(script_text(1, 6, 1), Some(expected.clone()));
    assert_eq!(generate_test_script(1)[1].body(6), Some(expected));
}

#[test]
fn bzip2_script_text() {
    let expected = format!(
        "{2}rm -r workload/inputs/{0}\n\
            cp -r workload/backup workload/inputs/{0}\n\
            rm logs/{0}_*_iter${{iteration}}*.log\n\
./target/release/bzip2 {0} {1} compress workload/inputs/{0}/avi_video.avi > \"logs/{0}_compress_avi_video_iter${{iteration}}.log\" 2>&1\n\
./target/release/bzip2 {0} {1} compress workload/inputs/{0}/iso_file.iso > \"logs/{0}_compress_iso_file_iter${{iteration}}.log\" 2>&1 \n\
./target/release/bzip2 {0} {1} compress workload/inputs/{0}/wiki_data > \"logs/{0}_compress_iter${{iteration}}.log_wiki_data\" 2>&1 \n\
./target/release/bzip2 {0} {1} compress workload/inputs/{0}/jdk-17.0.12_linux-x64_bin.tar.gz > \"logs/{0}_compress_jdk_iter${{iteration}}.log\" 2>&1 \n\
\n\
./target/release/bzip2 {0} {1} decompress workload/inputs/{0}/avi_video.avi.bz2 > \"logs/{0}_decompress_avi_video_iter${{iteration}}.log\" 2>&1\n\
./target/release/bzip2 {0} {1} decompress workload/inputs/{0}/iso_file.iso.bz2 > \"logs/{0}_decompress_iso_file_iter${{iteration}}.log\" 2>&1 \n\
./target/release/bzip2 {0} {1} decompress workload/inputs/{0}/wiki_data.bz2 > \"logs/{0}_decompress_iter${{iteration}}.log_wiki_data\" 2>&1 \n\
./target/release/bzip2 {0} {1} decompress workload/inputs/{0}/jdk-17.0.12_linux-x64_bin.tar.gz.bz2 > \"logs/{0}_decompress_jdk_iter${{iteration}}.log\" 2>&1\n",
        "sequential", 10, SCRIPT_START
    );
    assert_eq!(script_text(0, 0, 10), Some(expected));
    assert_eq!(script_text(4, 0, 10), None);
    assert_eq!(script_text(0, 7, 10), None);
}
