use docsearch::FsstStrVec;

// ========================================================================
// SECTION 1: Basic Sanity Tests - FsstStrVec
// ========================================================================

#[test]
fn test_fsst_str_vec_basic() {
	// Simple sanity test for FsstStrVec

	let strings = vec!["hello", "world", "rust", "search"];
	let vec = FsstStrVec::from_strings(&strings);

	assert_eq!(vec.len(), 4);

	assert_eq!(vec.get(0), Some("hello".to_string()));
	assert_eq!(vec.get(1), Some("world".to_string()));
	assert_eq!(vec.get(2), Some("rust".to_string()));
	assert_eq!(vec.get(3), Some("search".to_string()));
}

#[test]
fn test_fsst_str_vec_out_of_bounds() {
	// Test that getting an out-of-bounds index returns None
	let strings = vec!["hello", "world"];
	let vec = FsstStrVec::from_strings(&strings);

	assert_eq!(vec.get(5), None);
	assert_eq!(vec.get(100), None);
}

#[test]
fn test_fsst_str_vec_empty() {
	// Test behavior with empty vector
	let strings: Vec<&str> = vec![];
	let vec = FsstStrVec::from_strings(&strings);

	assert_eq!(vec.len(), 0);
	assert_eq!(vec.get(0), None);
}

#[test]
fn test_fsst_str_vec_single_item() {
	// Test with a single string
	let strings = vec!["solo"];
	let vec = FsstStrVec::from_strings(&strings);

	assert_eq!(vec.len(), 1);
	assert_eq!(vec.get(0), Some("solo".to_string()));
	assert_eq!(vec.get(1), None);
}

#[test]
fn test_fsst_str_vec_long_strings() {
	// Test with longer strings to verify compression works
	let strings = vec![
		"This is a much longer string that should compress well with FSST",
		"Another long string with similar patterns and repeated words",
		"The third long string continues the pattern with more text",
	];
	let vec = FsstStrVec::from_strings(&strings);

	assert_eq!(vec.len(), 3);
	assert_eq!(vec.get(0), Some(strings[0].to_string()));
	assert_eq!(vec.get(1), Some(strings[1].to_string()));
	assert_eq!(vec.get(2), Some(strings[2].to_string()));
}

#[test]
fn test_fsst_str_vec_unicode() {
	// Test with Unicode strings
	let strings = vec!["Hello 世界", "Rust 🦀", "Café ☕"];
	let vec = FsstStrVec::from_strings(&strings);

	assert_eq!(vec.len(), 3);
	assert_eq!(vec.get(0), Some("Hello 世界".to_string()));
	assert_eq!(vec.get(1), Some("Rust 🦀".to_string()));
	assert_eq!(vec.get(2), Some("Café ☕".to_string()));
}

