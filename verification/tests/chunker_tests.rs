use markdown_lab::chunker::{create_semantic_chunks, semantic_chunking, ChunkAccumulator, ChunkerError};

#[test]
fn test_basic_chunking() {
    let markdown = "# Title\n\n## Section 1\n\nThis is a test paragraph.\n\n## Section 2\n\n* List item 1\n* List item 2";

    let chunks = create_semantic_chunks(markdown, 500, 50).unwrap();
    assert!(!chunks.is_empty());
    assert!(chunks[0].contains("# Title"));
}

#[test]
fn test_chunk_overlap() {
    let markdown = "# First\n\nContent 1\n\n# Second\n\nContent 2\n\n# Third\n\nContent 3";

    let chunks = create_semantic_chunks(markdown, 20, 10).unwrap();
    assert!(chunks.len() > 1);

    // Check for overlap
    if chunks.len() >= 2 {
        let first_chunk = &chunks[0];
        let second_chunk = &chunks[1];

        assert!(first_chunk.contains("First"));
        assert!(second_chunk.contains("Second"));
    }
}

#[test]
fn test_two_sections_two_chunks() {
    let chunks =
        create_semantic_chunks("# Title\n\nBody text here.\n\n# Next\n\nMore body.", 1000, 50)
            .unwrap();
    assert_eq!(chunks.len(), 2);
    assert!(chunks[0].contains("# Title"));
    assert!(chunks[0].contains("Body text here."));
    assert!(chunks[1].contains("# Next"));
    assert!(chunks[1].contains("More body."));
}

#[test]
fn test_long_prose_splits_with_overlap() {
    let mut prose = String::new();
    for _ in 0..1000 {
        prose.push_str("word ");
    }
    let input = format!("# Head\n{}", prose);
    let chunks = create_semantic_chunks(&input, 200, 20).unwrap();
    assert!(chunks.len() > 1);
    // the chunk produced by the split hands its tail to its successor
    for i in 0..chunks.len() - 1 {
        let prev: Vec<char> = chunks[i].chars().collect();
        let take = prev.len().min(20);
        let tail: String = prev[prev.len() - take..].iter().collect();
        assert!(chunks[i + 1].starts_with(&tail));
    }
}

#[test]
fn test_overlap_must_be_smaller_than_size() {
    assert!(matches!(
        create_semantic_chunks("anything", 10, 10),
        Err(ChunkerError::ConfigurationError(_))
    ));
    assert!(matches!(
        create_semantic_chunks("anything", 10, 20),
        Err(ChunkerError::ConfigurationError(_))
    ));
    assert!(matches!(
        semantic_chunking("anything", 0, 0),
        Err(ChunkerError::ConfigurationError(_))
    ));
    assert!(ChunkAccumulator::new(10, 10).is_err());
    assert!(ChunkAccumulator::new(10, 5).is_ok());
}

#[test]
fn test_metadata_counts_match_content() {
    let markdown = "# One\n\nAlpha beta gamma.\n\n# Two\n\nDelta epsilon.";
    let chunks = semantic_chunking(markdown, 100, 10).unwrap();
    assert!(!chunks.is_empty());
    for c in &chunks {
        assert_eq!(c.metadata.word_count, c.content.split_whitespace().count());
        assert_eq!(c.metadata.char_count, c.content.chars().count());
    }
}

#[test]
fn test_positions_are_sequential() {
    let markdown = "# A\n\nx\n\n# B\n\ny\n\n# C\n\nz";
    let chunks = semantic_chunking(markdown, 50, 5).unwrap();
    for (i, c) in chunks.iter().enumerate() {
        assert_eq!(c.metadata.position, i);
    }
}

#[test]
fn test_heading_metadata() {
    let chunks = semantic_chunking("## Sub Heading\n\ntext", 100, 10).unwrap();
    assert_eq!(chunks.len(), 1);
    assert_eq!(chunks[0].metadata.level, 2);
    assert_eq!(chunks[0].metadata.heading.as_deref(), Some("Sub Heading"));
}

#[test]
fn test_non_heading_lines_stay_in_chunk() {
    // no space after the hashes, and more hashes than a heading can carry
    let chunks = semantic_chunking("##notaheading\n####### seven", 100, 10).unwrap();
    assert_eq!(chunks.len(), 1);
    assert_eq!(chunks[0].metadata.level, 0);
    assert!(chunks[0].metadata.heading.is_none());
    assert!(chunks[0].content.contains("##notaheading"));
    assert!(chunks[0].content.contains("####### seven"));
}

#[test]
fn test_no_chunk_holds_two_headings() {
    let markdown = "# First\n\nContent 1\n\n# Second\n\nContent 2\n\n# Third\n\nContent 3";
    let chunks = create_semantic_chunks(markdown, 1000, 50).unwrap();
    for c in &chunks {
        let heading_lines = c
            .lines()
            .filter(|l| {
                let hashes = l.chars().take_while(|ch| *ch == '#').count();
                let rest: Vec<char> = l.chars().skip(hashes).collect();
                (1..=6).contains(&hashes)
                    && rest.len() >= 2
                    && rest[0].is_whitespace()
            })
            .count();
        assert!(heading_lines <= 1);
    }
}

#[test]
fn test_size_bound_with_short_lines() {
    // chunk_size >= 3 * chunk_overlap and every line shorter than the
    // overlap keeps every chunk within chunk_size + chunk_overlap
    let mut input = String::new();
    for _ in 0..200 {
        input.push_str("abc\n");
    }
    let chunks = create_semantic_chunks(&input, 30, 5).unwrap();
    assert!(chunks.len() > 1);
    for c in &chunks {
        assert!(c.chars().count() <= 35);
    }
}

#[test]
fn test_density_fixture() {
    // "Hello world": two tokens, one capitalized: 5 tenths of a point.
    // raw = min(100 n, 10 a) = min(200, 50) = 50; bonus = min(20 n, n^2) = 4.
    let chunks = semantic_chunking("Hello world", 100, 10).unwrap();
    assert_eq!(chunks.len(), 1);
    let d = &chunks[0].metadata.semantic_density;
    assert_eq!(d.numer, 54);
    assert_eq!(d.denom, 200);
}

#[test]
fn test_density_orders_keyword_text_higher() {
    let plain = semantic_chunking("apple banana pear", 100, 10).unwrap();
    let keyworded = semantic_chunking("function data model", 100, 10).unwrap();
    let dp = &plain[0].metadata.semantic_density;
    let dk = &keyworded[0].metadata.semantic_density;
    let vp = dp.numer as f64 / dp.denom as f64;
    let vk = dk.numer as f64 / dk.denom as f64;
    assert!(vk > vp);
}

#[test]
fn test_chunking_is_deterministic() {
    let markdown = "# T\n\nSome body. More text! And a question? Yes.\n\n# U\n\nTail.";
    let a = create_semantic_chunks(markdown, 25, 5).unwrap();
    let b = create_semantic_chunks(markdown, 25, 5).unwrap();
    assert_eq!(a, b);
}

#[test]
fn test_crlf_lines_are_normalized() {
    let a = create_semantic_chunks("# A\r\n\r\nBody.", 100, 10).unwrap();
    let b = create_semantic_chunks("# A\n\nBody.", 100, 10).unwrap();
    assert_eq!(a, b);
}

#[test]
fn test_accumulator_streaming_interface() {
    let mut acc = ChunkAccumulator::new(100, 10).unwrap();
    assert_eq!(acc.chunk_size(), 100);
    assert_eq!(acc.chunk_overlap(), 10);
    acc.add_line("# Title");
    acc.add_line("");
    acc.add_line("Body text.");
    let chunks = acc.finalize();
    assert_eq!(chunks.len(), 1);
    assert_eq!(chunks[0].content, "# Title\n\nBody text.");
    assert_eq!(chunks[0].metadata.heading.as_deref(), Some("Title"));
}

#[test]
fn test_empty_input_yields_no_chunks() {
    let chunks = create_semantic_chunks("", 100, 10).unwrap();
    assert!(chunks.is_empty());
}

#[test]
fn test_word_boundary_split_can_exceed_soft_bound() {
    // One long unbroken word pushes the forward search far past the target:
    // the emitted chunk is larger than chunk_size + chunk_overlap. The size
    // bound holds only under the law's hypothesis of short lines.
    let chunks =
        create_semantic_chunks("12345678901234567890123456789 end", 10, 2).unwrap();
    assert_eq!(
        chunks,
        vec!["12345678901234567890123456789 ".to_string(), "9 end".to_string()]
    );
    assert!(chunks[0].chars().count() > 12);
}

#[test]
fn test_seed_can_reintroduce_heading_text() {
    // A wide overlap carries the heading line into the seed, and the trimmed
    // remainder turns an indented line into heading shape: the flushed chunk
    // holds two heading-pattern lines. Heading isolation is guaranteed only
    // for runs without overflow splits.
    let chunks = create_semantic_chunks("# y\n  # bb", 5, 4).unwrap();
    assert_eq!(chunks, vec!["# y\n".to_string(), "# y\n# bb".to_string()]);
}
