use docsearch::{build_index, Document, Index};

// ========================================================================
// SECTION 2: Document Structure Tests
// ========================================================================

#[test]
fn test_document_creation() {
	// Test that we can create Document structs
	let doc = Document {
		title: "Test Document".to_string(),
		category: "Test".to_string(),
		href: "/test".to_string(),
		body: "This is a test document body".to_string(),
		keywords: Some(vec!["test".to_string(), "document".to_string()]),
	};

	assert_eq!(doc.title, "Test Document");
	assert_eq!(doc.category, "Test");
	assert_eq!(doc.href, "/test");
	assert_eq!(doc.body, "This is a test document body");
	assert_eq!(
		doc.keywords,
		Some(vec!["test".to_string(), "document".to_string()])
	);
}

// ========================================================================
// SECTION 3: Index Building Tests
// ========================================================================

#[test]
fn test_build_index_simple() {
	// Test building a simple index with a few documents

	let documents = vec![
		Document {
			title: "Rust Programming".to_string(),
			category: "Documentation".to_string(),
			href: "/docs/rust".to_string(),
			body: "Learn Rust programming language".to_string(),
			keywords: Some(vec!["rust".to_string(), "programming".to_string()]),
		},
		Document {
			title: "Python Guide".to_string(),
			category: "Documentation".to_string(),
			href: "/docs/python".to_string(),
			body: "Python is a versatile programming language".to_string(),
			keywords: Some(vec!["python".to_string(), "guide".to_string()]),
		},
	];

	let index = build_index(documents);
	assert!(index.is_ok());

	let index = index.unwrap();
	assert_eq!(index.document_strings().len(), 8); // 4 strings per document * 2 documents
}

#[test]
fn test_build_index_empty() {
	// Test building an index with no documents
	let documents: Vec<Document> = vec![];
	let index = build_index(documents);
	assert!(index.is_ok());

	let index = index.unwrap();
	assert_eq!(index.document_strings().len(), 0);
}

#[test]
fn test_build_index_single_document() {
	// Test building an index with a single document
	let documents = vec![Document {
		title: "Single Document".to_string(),
		category: "Test".to_string(),
		href: "/single".to_string(),
		body: "This is the only document".to_string(),
		keywords: Some(vec!["single".to_string(), "document".to_string()]),
	}];

	let index = build_index(documents);
	assert!(index.is_ok());

	let index = index.unwrap();
	assert_eq!(index.document_strings().len(), 4); // title, category, href, body
}

#[test]
fn test_build_index_duplicate_titles() {
	// Test with documents that have similar or duplicate titles
	let documents = vec![
		Document {
			title: "Getting Started".to_string(),
			category: "Guide".to_string(),
			href: "/guide1".to_string(),
			body: "First guide".to_string(),
			keywords: Some(vec!["getting".to_string(), "started".to_string()]),
		},
		Document {
			title: "Getting Started".to_string(),
			category: "Tutorial".to_string(),
			href: "/tutorial1".to_string(),
			body: "First tutorial".to_string(),
			keywords: Some(vec!["getting".to_string(), "started".to_string()]),
		},
	];

	let index = build_index(documents);
	assert!(index.is_ok());
}

// ========================================================================
// SECTION 4: Index Serialization Tests
// ========================================================================

#[test]
fn test_index_serialization() {
	// Test that we can serialize and deserialize an index

	let documents = vec![Document {
		title: "Test Document".to_string(),
		category: "Test".to_string(),
		href: "/test".to_string(),
		body: "This is a test document".to_string(),
		keywords: Some(vec!["test".to_string(), "document".to_string()]),
	}];

	let index = build_index(documents).unwrap();

	// Create a buffer to serialize to
	let buffer = index.to_bytes().unwrap();
	assert!(!buffer.is_empty());

	// Try to deserialize from the buffer
	let deserialized = Index::from_bytes(&buffer);
	assert!(deserialized.is_ok());

	let deserialized_index = deserialized.unwrap();
	assert_eq!(
		deserialized_index.document_strings().len(),
		index.document_strings().len()
	);
}

#[test]
fn test_index_serialization_roundtrip() {
	// Test that we can serialize and deserialize multiple times
	let documents = vec![
		Document {
			title: "Document One".to_string(),
			category: "Category A".to_string(),
			href: "/doc1".to_string(),
			body: "Content for document one".to_string(),
			keywords: Some(vec!["document".to_string(), "one".to_string()]),
		},
		Document {
			title: "Document Two".to_string(),
			category: "Category B".to_string(),
			href: "/doc2".to_string(),
			body: "Content for document two".to_string(),
			keywords: Some(vec!["document".to_string(), "two".to_string()]),
		},
	];

	let original_index = build_index(documents).unwrap();

	// First roundtrip
	let buffer1 = original_index.to_bytes().unwrap();
	let index1 = Index::from_bytes(&buffer1).unwrap();

	// Second roundtrip
	let buffer2 = index1.to_bytes().unwrap();
	let index2 = Index::from_bytes(&buffer2).unwrap();

	// Verify the data is consistent
	assert_eq!(
		index2.document_strings().len(),
		original_index.document_strings().len()
	);
}

