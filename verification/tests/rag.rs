use aresadb::rag::chunker::{ChunkStrategy, Chunker, DocumentChunk};
use aresadb::rag::context::{
    bm25_reranker, estimate_tokens, keyword_reranker, Candidate, ContextChunk, ContextRetriever,
    RetrievedContext,
};
use aresadb::rag::embeddings::{
    EmbeddingError, EmbeddingManager, LocalHashEmbeddings, OpenAIModel, TfIdfEmbeddings,
};
use aresadb::rag::hybrid::{keyword_search_sync, HybridSearch, HybridSearchConfig};
use aresadb::storage::{Node, NodeId, PropertyMap, Value};

#[test]
fn test_fixed_size_chunking() {
    let chunker = Chunker::new(ChunkStrategy::FixedSize {
        chunk_size: 100,
        overlap: 20,
    });

    let content = "a".repeat(250);
    let chunks = chunker.chunk("doc1", &content);

    assert!(chunks.len() >= 3);
    assert_eq!(chunks[0].chunk_index, 0);
    assert_eq!(chunks[0].document_id, "doc1");
}

#[test]
fn test_sentence_chunking() {
    let chunker = Chunker::sentence_chunker(50);

    let content = "This is sentence one. This is sentence two. This is sentence three. This is sentence four.";
    let chunks = chunker.chunk("doc2", content);

    assert!(chunks.len() >= 1);
    for chunk in &chunks {
        assert!(!chunk.content.is_empty());
    }
}

#[test]
fn test_paragraph_chunking() {
    let chunker = Chunker::paragraph_chunker(200);

    let content = "First paragraph here.\n\nSecond paragraph here.\n\nThird paragraph here.";
    let chunks = chunker.chunk("doc3", content);

    assert!(chunks.len() >= 1);
}

#[test]
fn test_semantic_chunking() {
    let chunker = Chunker::new(ChunkStrategy::Semantic { max_size: 500 });

    let content = "# Introduction\n\nThis is the intro.\n\n## Methods\n\nThis is methods.\n\n## Results\n\nThis is results.";
    let chunks = chunker.chunk("doc4", content);

    assert!(chunks.len() >= 2);
}

#[test]
fn test_token_estimation() {
    let text = "This is a test sentence with some words.";
    let tokens = Chunker::estimate_tokens(text);
    assert!(tokens > 0);
    assert!(tokens < text.len());
}

#[test]
fn test_empty_content() {
    let chunker = Chunker::default_chunker();
    let chunks = chunker.chunk("empty", "");
    assert!(chunks.is_empty());
}

#[test]
fn chunks_are_numbered_and_named() {
    let chunker = Chunker::new(ChunkStrategy::FixedSize {
        chunk_size: 4,
        overlap: 0,
    });
    let chunks = chunker.chunk("d", "abcdefgh");
    assert_eq!(chunks.len(), 2);
    assert_eq!(chunks[0].content, "abcd");
    assert_eq!(chunks[1].content, "efgh");
    assert_eq!(chunks[1].id, "d_1");
    assert_eq!(chunks[1].chunk_index, 1);
    assert_eq!(chunks[1].total_chunks, 2);
    assert_eq!(chunks[1].start_offset, 4);
    assert_eq!(chunks[1].end_offset, 8);
}

#[test]
fn sentences_are_split_behind_their_marks() {
    let parts = Chunker::split_sentences("One. Two! Three? Four");
    assert_eq!(parts.len(), 4);
    assert_eq!(parts[0], "One.");
    assert_eq!(parts[3], "Four");
}

fn spans(chunker: &Chunker, content: &str) -> Vec<(String, usize, usize)> {
    chunker
        .chunk("d", content)
        .into_iter()
        .map(|c| (c.content, c.start_offset, c.end_offset))
        .collect()
}

fn span(content: &str, start: usize, end: usize) -> (String, usize, usize) {
    (content.to_string(), start, end)
}

#[test]
fn offsets_are_places_in_the_document() {
    let sentences = Chunker::sentence_chunker(1);
    assert_eq!(
        spans(&sentences, "Hello world. Bye now."),
        vec![span("Hello world.", 0, 12), span("Bye now.", 13, 21)]
    );
    assert_eq!(
        spans(&sentences, "  One is it.\n\n Two."),
        vec![span("One is it.", 2, 12), span("Two.", 15, 19)]
    );
    let paragraphs = Chunker::paragraph_chunker(3);
    assert_eq!(
        spans(&paragraphs, "abc\n\n\n\ndef"),
        vec![span("abc", 0, 3), span("def", 7, 10)]
    );
    let both = Chunker::paragraph_chunker(8);
    assert_eq!(spans(&both, "abc\n\n\n\ndef"), vec![span("abc\n\ndef", 0, 10)]);
    let sections = Chunker::new(ChunkStrategy::Semantic { max_size: 500 });
    assert_eq!(
        spans(&sections, "\n\n# A\r\none\r\n# B\ntwo"),
        vec![span("# A\none", 2, 10), span("# B\ntwo", 12, 19)]
    );
}

#[test]
fn a_cut_section_keeps_its_place() {
    let sections = Chunker::new(ChunkStrategy::Semantic { max_size: 60 });
    let content = format!("# A\r\n{}\n# B", "x".repeat(66));
    let found = spans(&sections, &content);
    assert_eq!(found[0], (format!("# A\n{}", "x".repeat(56)), 0, 61));
    assert_eq!(found[1].1, 11);
    assert_eq!(found[1].2, 71);
    assert_eq!(found.last().unwrap(), &span("# B", 72, 75));
}

#[test]
fn joints_count_against_the_limit() {
    assert_eq!(
        spans(&Chunker::paragraph_chunker(6), "abc\n\ndef"),
        vec![span("abc", 0, 3), span("def", 5, 8)]
    );
    assert_eq!(
        spans(&Chunker::paragraph_chunker(8), "abc\n\ndef"),
        vec![span("abc\n\ndef", 0, 8)]
    );
    assert_eq!(
        spans(&Chunker::sentence_chunker(1), "Abc. De."),
        vec![span("Abc.", 0, 4), span("De.", 5, 8)]
    );
    assert_eq!(spans(&Chunker::sentence_chunker(2), "Abc. De."), vec![span("Abc. De.", 0, 8)]);
}

#[test]
fn sizes_are_counted_in_characters() {
    let text = "\u{e9}\u{e9}\n\n\u{e9}\u{e9}";
    assert_eq!(spans(&Chunker::paragraph_chunker(7), text), vec![span(text, 0, 10)]);
    assert_eq!(
        spans(&Chunker::paragraph_chunker(5), text),
        vec![span("\u{e9}\u{e9}", 0, 4), span("\u{e9}\u{e9}", 6, 10)]
    );
    let section = "\u{e9}".repeat(5);
    let sections = Chunker::new(ChunkStrategy::Semantic { max_size: 5 });
    assert_eq!(spans(&sections, &section), vec![span(&section, 0, 10)]);
}

#[test]
fn fixed_chunks_are_as_many_as_it_takes() {
    let fixed = |chunk_size, overlap| Chunker::new(ChunkStrategy::FixedSize { chunk_size, overlap });
    let content = "a".repeat(10);
    assert_eq!(fixed(4, 1).chunk("d", &content).len(), 3);
    assert_eq!(fixed(4, 0).chunk("d", &content).len(), 3);
    assert_eq!(fixed(10, 2).chunk("d", &content).len(), 1);
    assert_eq!(fixed(4, 9).chunk("d", &content).len(), 7);
}

#[test]
fn fixed_chunks_hold_the_text_step_by_step() {
    let chunker = Chunker::new(ChunkStrategy::Sentence { max_tokens: 9 });
    let texts = |size: usize, overlap: usize| -> Vec<String> {
        let chunks = chunker.chunk_fixed_size("d", "abcdefghij", size, overlap);
        chunks.into_iter().map(|c| c.content).collect()
    };
    assert_eq!(texts(4, 1), vec!["abcd", "defg", "ghij"]);
    assert_eq!(texts(4, 0), vec!["abcd", "efgh", "ij"]);
    assert_eq!(texts(9, 5), vec!["abcdefghi", "efghij"]);
    assert_eq!(texts(10, 3), vec!["abcdefghij"]);
    assert_eq!(texts(8, 8), vec!["abcdefgh", "bcdefghi", "cdefghij"]);
}

#[test]
fn parts_are_gathered_whatever_the_strategy() {
    let chunker = Chunker::new(ChunkStrategy::FixedSize { chunk_size: 1, overlap: 0 });
    let texts = |chunks: Vec<DocumentChunk>| -> Vec<String> {
        chunks.into_iter().map(|c| c.content).collect()
    };
    let paragraphs = texts(chunker.chunk_by_paragraph("d", "one\n\ntwo\n\n\n\nthree", 8));
    assert_eq!(paragraphs, vec!["one\n\ntwo", "three"]);
    assert!(chunker.chunk_by_paragraph("d", " \n\n ", 8).is_empty());
    let sentences = texts(chunker.chunk_by_sentence("d", "One. Two. Three.", 2));
    assert_eq!(sentences.join(" "), "One. Two. Three.");
    assert!(chunker.chunk_by_sentence("d", "  ", 2).is_empty());
    let sections = texts(chunker.chunk_semantic("d", "# A\nfirst\n# B\nsecond", 100));
    assert_eq!(sections, vec!["# A\nfirst", "# B\nsecond"]);
}

#[test]
fn paragraphs_come_back_together() {
    let content = "one\n\ntwo two\n\n\n\nthree\n\n \n\nfour";
    for max_size in [1, 5, 12, 30] {
        let texts: Vec<String> = Chunker::paragraph_chunker(max_size)
            .chunk("d", content)
            .into_iter()
            .map(|c| c.content)
            .collect();
        assert_eq!(texts.join("\n\n"), "one\n\ntwo two\n\nthree\n\nfour");
    }
}

#[test]
fn a_chunk_is_shown_with_its_surroundings() {
    let chunker = Chunker::new(ChunkStrategy::FixedSize {
        chunk_size: 4,
        overlap: 0,
    });
    let content = "abcdefghijkl";
    let chunks = chunker.chunk("d", content);
    assert_eq!(chunker.get_context_window(content, &chunks[1], 2), "cdefghij");
}

#[test]
fn test_keyword_reranker() {
    let query = "machine learning algorithms";
    let content = "This article discusses machine learning and various algorithms.";

    let (matches, total) = keyword_reranker(query, content);
    assert!(matches as f64 / total as f64 > 0.5);
    assert_eq!((matches, total), (3, 3));
}

#[test]
fn test_bm25_reranker() {
    let query = "neural networks";
    let content =
        "Neural networks are a type of machine learning model. Neural networks can be deep.";

    let (frequencies, length) = bm25_reranker(query, content);
    assert_eq!(frequencies, vec![2, 2]);
    let mut score = 0.0f64;
    for tf in frequencies {
        let tf = tf as f64;
        score += (tf * 2.5) / (tf + 1.5 * (0.25 + 0.75 * length as f64 / 500.0));
    }
    assert!(score > 0.0);
}

fn piece(id: &str, content: &str, document: &str, index: u64, score: f64) -> ContextChunk {
    ContextChunk {
        node_id: id.to_string(),
        content: content.to_string(),
        score: score.to_bits(),
        distance: (1.0 - score).to_bits(),
        document_id: Some(document.to_string()),
        chunk_index: Some(index),
        metadata: None,
    }
}

#[test]
fn test_context_format() {
    let context = RetrievedContext {
        chunks: vec![
            piece("1", "First chunk content", "doc1", 0, 0.95),
            piece("2", "Second chunk content", "doc2", 1, 0.85),
        ],
        estimated_tokens: 10,
        query: "test query".to_string(),
    };

    let formatted = context.format_for_llm(&["95.0%".to_string(), "85.0%".to_string()]);
    assert!(formatted.contains("[Source 1]"));
    assert!(formatted.contains("[Source 2]"));
    assert!(formatted.contains("First chunk content"));
    assert!(formatted.contains("(Doc: doc2) (Relevance: 85.0%)\nSecond chunk content"));
}

#[test]
fn test_estimate_tokens() {
    let text = "This is a test with about forty characters.";
    let tokens = estimate_tokens(text);
    assert!(tokens > 5 && tokens < 20);
}

fn candidate(text: &str, score: f64) -> Candidate {
    let mut properties = PropertyMap::new();
    properties.insert("content", Value::String(text.to_string()));
    let node = Node::with_id(NodeId::new(), "chunk", properties);
    Candidate {
        id: NodeId::parse(&node.id.to_string()).ok().unwrap(),
        score: score.to_bits(),
        distance: (1.0 - score).to_bits(),
        node: Some(node),
    }
}

#[test]
fn only_results_with_a_node_and_a_good_score_are_reranked() {
    let retriever = ContextRetriever::new().min_score(0.5f64.to_bits());
    let mut gone = candidate("gone", 0.9);
    gone.node = None;
    let found = [candidate("a", 0.9), candidate("b", 0.4), gone, candidate("c", 0.5)];
    assert_eq!(retriever.reranking_candidates(&found), vec![0, 3]);
    assert!(retriever.reranking_candidates(&[]).is_empty());
}

#[test]
fn context_stays_within_its_budget() {
    let retriever = ContextRetriever::new().max_tokens(12).min_score(0.5f64.to_bits());
    let found = retriever.retrieve(
        &[
            candidate("twenty characters ab", 0.9),
            candidate("too low to be taken!", 0.1),
            candidate("twenty characters cd", 0.8),
            candidate("twenty characters ef", 0.7),
        ],
        "q",
    );
    assert_eq!(found.query, "q");
    assert_eq!(found.chunks.len(), 2);
    assert_eq!(found.estimated_tokens, 10);
    assert_eq!(found.chunks[1].content, "twenty characters cd");
    assert!(retriever.too_low(0.4f64.to_bits()));
    assert!(!retriever.too_low(0.5f64.to_bits()));
}

#[test]
fn test_openai_model_parse() {
    assert_eq!(
        "small".parse::<OpenAIModel>().unwrap(),
        OpenAIModel::TextEmbedding3Small
    );
    assert_eq!(
        "large".parse::<OpenAIModel>().unwrap(),
        OpenAIModel::TextEmbedding3Large
    );
    assert_eq!("ada".parse::<OpenAIModel>().unwrap(), OpenAIModel::Ada002);
}

#[test]
fn model_names_are_read_in_any_case() {
    assert_eq!("SMALL".parse::<OpenAIModel>().ok(), Some(OpenAIModel::TextEmbedding3Small));
    assert_eq!(
        OpenAIModel::from_str("Text-Embedding-3-Large").ok(),
        Some(OpenAIModel::TextEmbedding3Large)
    );
    match OpenAIModel::from_str("huge") {
        Err(EmbeddingError::UnknownModel(name)) => {
            assert_eq!(name, "huge");
            assert_eq!(
                EmbeddingError::UnknownModel(name).message(),
                "Unknown OpenAI model: huge. Use: small, large, or ada"
            );
        }
        _ => panic!("Expected an unknown model"),
    }
    assert_eq!(OpenAIModel::Ada002.dimension(), 1536);
    assert_eq!(OpenAIModel::TextEmbedding3Large.dimension(), 3072);
    assert_eq!(OpenAIModel::Ada002.as_str(), "text-embedding-ada-002");
}

#[test]
fn test_embedding_manager_local() {
    let manager = EmbeddingManager::local_default();
    assert_eq!(manager.dimension(), 384);
    assert_eq!(manager.name(), "local-hash");
    assert_eq!(LocalHashEmbeddings::new(128).dimension(), 128);
}

#[test]
fn providers_are_chosen_by_name() {
    let key = EmbeddingManager::from_name("OpenAI", Some("k"), None).ok().unwrap();
    assert_eq!(key.name(), "openai");
    assert_eq!(key.dimension(), 1536);
    let env = EmbeddingManager::from_name("openai-large", None, Some("k")).ok().unwrap();
    assert_eq!(env.dimension(), 3072);
    let none = EmbeddingManager::from_name("openai", None, None);
    assert!(matches!(none, Err(EmbeddingError::KeyNeeded)));
    let large = EmbeddingManager::from_name("openai-large", None, None);
    assert!(matches!(large, Err(EmbeddingError::KeyNeededForLarge)));
    match EmbeddingManager::from_name("cohere", None, None) {
        Err(e) => assert_eq!(
            e.message(),
            "Unknown embedding provider: cohere. Use: openai, openai-large, local"
        ),
        Ok(_) => panic!("Expected an unknown provider"),
    }
}

#[test]
fn test_tfidf_embeddings() {
    let mut provider = TfIdfEmbeddings::new(100);
    provider.build_vocab(&["hello world", "world peace", "hello friend"]);

    let (emb1, total1) = provider.text_to_embedding("hello world");
    let (emb2, total2) = provider.text_to_embedding("world peace");

    assert_eq!(emb1.len(), 100);
    assert_eq!(emb2.len(), 100);
    assert_eq!(total1, 2);
    assert_eq!(total2, 2);
    assert_eq!(emb1.iter().sum::<usize>(), 2);
    assert!((0..100).any(|i| emb1[i] == 1 && emb2[i] == 1));
}

#[test]
fn a_vocabulary_holds_the_most_frequent_words() {
    let mut provider = TfIdfEmbeddings::new(2);
    provider.build_vocab(&["old words old words"]);
    provider.build_vocab(&["a b c", "B c", "C d"]);
    assert_eq!(provider.text_to_embedding("c c b a d old").0, vec![2, 1]);
    let mut wide = TfIdfEmbeddings::new(6);
    wide.build_vocab(&["a b c", "B c", "C d"]);
    assert_eq!(wide.text_to_embedding("a b b c d e").0, vec![1, 2, 1, 1, 0, 0]);
}

#[test]
fn test_keyword_search_sync() {
    let documents = vec![
        (
            "doc1".to_string(),
            "Machine learning is a subset of artificial intelligence".to_string(),
        ),
        (
            "doc2".to_string(),
            "Deep learning uses neural networks".to_string(),
        ),
        (
            "doc3".to_string(),
            "Natural language processing for text analysis".to_string(),
        ),
    ];

    let (results, total) = keyword_search_sync("machine learning", &documents);

    assert!(!results.is_empty());
    assert_eq!(results[0].id, "doc1");
    assert_eq!(total, 2);
    assert_eq!(results[0].matches, 2);
    assert_eq!(results[1].id, "doc2");
    assert_eq!(results.len(), 2);
}

#[test]
fn test_keyword_search_no_match() {
    let documents = vec![("doc1".to_string(), "Hello world".to_string())];

    let (results, _) = keyword_search_sync("quantum computing", &documents);
    assert!(results.is_empty());
}

#[test]
fn test_hybrid_config_default() {
    let config = HybridSearchConfig::default();
    assert_eq!(f64::from_bits(config.keyword_weight), 0.5);
    assert_eq!(f64::from_bits(config.vector_weight), 0.5);
}

#[test]
fn test_hybrid_config_focused() {
    let kw_config = HybridSearchConfig::keyword_focused();
    assert!(f64::from_bits(kw_config.keyword_weight) > f64::from_bits(kw_config.vector_weight));
    assert_eq!(f64::from_bits(kw_config.keyword_weight), 0.7);
    assert_eq!(f64::from_bits(kw_config.vector_weight), 0.3);

    let vec_config = HybridSearchConfig::vector_focused();
    assert!(f64::from_bits(vec_config.vector_weight) > f64::from_bits(vec_config.keyword_weight));
    assert_eq!(f64::from_bits(vec_config.rrf_k), 60.0);
}

#[test]
fn ranks_of_both_searches_are_joined() {
    let a = NodeId::new();
    let b = NodeId::new();
    let c = NodeId::new();
    let same = |id: &NodeId| NodeId::parse(&id.to_string()).ok().unwrap();
    let fused = HybridSearch::reciprocal_rank_fusion(
        &[same(&a), same(&b)],
        &[same(&b), same(&c)],
    );
    assert_eq!(fused.len(), 3);
    for f in &fused {
        if f.id.same(&a) {
            assert_eq!((f.keyword_rank, f.vector_rank), (Some(1), None));
        } else if f.id.same(&b) {
            assert_eq!((f.keyword_rank, f.vector_rank), (Some(2), Some(1)));
        } else {
            assert_eq!((f.keyword_rank, f.vector_rank), (None, Some(2)));
        }
    }
    assert_eq!(HybridSearch::search(&[5, 9, 7], 2), vec![1, 2]);
}

#[test]
fn words_are_counted_in_lower_case() {
    let search = HybridSearch::new();
    let terms = HybridSearch::keyword_terms("Rust FAST");
    assert_eq!(terms, vec!["rust", "fast"]);
    let profile = search.bm25_score(&terms, "Rust is fast, rust is safe");
    assert_eq!(profile.frequencies, vec![2, 1]);
    assert!(profile.counts);
    let other = search.bm25_score(&terms, "Python");
    assert!(!other.counts);
}

#[test]
fn embeddings_from_hashes_have_a_usual_dimension() {
    assert_eq!(LocalHashEmbeddings::with_default_dimension().dimension(), 384);
    assert_eq!(LocalHashEmbeddings::new(8).dimension(), 8);
}
