use seqdist::fasta::{format_fasta, parse_fasta};
use seqdist::sequence::{join, pairwise_hamming, Sequence};

fn seq(label: &str, content: &str) -> Sequence {
    Sequence { label: String::from(label), content: String::from(content) }
}

#[test]
fn test_read_sequence() {
    let sequences = parse_fasta(">Taxon_1\nATAT\nTCG\n");
    assert_eq!(sequences.len(), 1);
    assert_eq!(sequences[0].content, "ATATTCG");
    assert_eq!(sequences[0].label, "Taxon_1");
    assert_eq!(sequences[0].to_string(), ">Taxon_1\nATATTCG\n");
}

#[test]
fn test_distance_success() {
    let seq_a = seq("Seq_A", "AAAAAAAAAA");
    let seq_b = seq("Seq_B", "AAACCAAGGA");
    assert_eq!(seq_a.hamming_distance(&seq_a), Some(0));
    assert_eq!(seq_a.hamming_distance(&seq_b), Some(4));
    assert_eq!(seq_a.length(), 10);
}

#[test]
fn test_distance_fail() {
    let seq_a = seq("Seq_A", "AAAAAAAAAA");
    let seq_b = seq("Seq_B", "AAACCAA");
    assert_eq!(seq_a.hamming_distance(&seq_b), None);
    assert_eq!(seq_b.hamming_distance(&seq_a), None);
}

#[test]
fn hamming_is_symmetric() {
    let a = seq("a", "ACGTACGT");
    let b = seq("b", "ACCTAGGA");
    assert_eq!(a.hamming_distance(&b), Some(3));
    assert_eq!(b.hamming_distance(&a), Some(3));
    assert_eq!(b.hamming_distance(&b), Some(0));
}

#[test]
fn hamming_of_empty_sequences() {
    let a = seq("a", "");
    let b = seq("b", "");
    assert_eq!(a.hamming_distance(&b), Some(0));
    assert_eq!(a.length(), 0);
}

#[test]
fn length_counts_symbols() {
    assert_eq!(seq("x", "ACGT-N").length(), 6);
}

#[test]
fn join_pads_to_longest() {
    let a = vec![seq("a1", "ACG"), seq("a2", "A")];
    let b = vec![seq("b1", "ACGTT")];
    let r = join(&a, &b);
    assert_eq!(r.len(), 3);
    assert_eq!(r[0].label, "a1");
    assert_eq!(r[0].content, "ACG--");
    assert_eq!(r[1].label, "a2");
    assert_eq!(r[1].content, "A----");
    assert_eq!(r[2].label, "b1");
    assert_eq!(r[2].content, "ACGTT");
}

#[test]
fn join_of_empty_lists() {
    let r = join(&Vec::new(), &Vec::new());
    assert!(r.is_empty());
}

#[test]
fn parse_several_records() {
    let r = parse_fasta("junk\n>one\nAC\nGT\n>two\n\nTT");
    assert_eq!(r.len(), 2);
    assert_eq!(r[0].label, "one");
    assert_eq!(r[0].content, "ACGT");
    assert_eq!(r[1].label, "two");
    assert_eq!(r[1].content, "TT");
}

#[test]
fn parse_keeps_text_after_marker() {
    let r = parse_fasta("> spaced label\nA\n>\n");
    assert_eq!(r.len(), 2);
    assert_eq!(r[0].label, " spaced label");
    assert_eq!(r[1].label, "");
    assert_eq!(r[1].content, "");
}

#[test]
fn parse_empty_text() {
    assert!(parse_fasta("").is_empty());
    assert!(parse_fasta("ACGT\nTT\n").is_empty());
}

#[test]
fn format_writes_two_lines_per_record() {
    let text = format_fasta(&vec![seq("a", "AC"), seq("b", "")]);
    assert_eq!(text, "> a\nAC\n> b\n\n");
}

#[test]
fn save_then_load_keeps_content() {
    let loaded = parse_fasta(">Taxon_1\nATAT\nTCG\n>Taxon_2\nGG\n");
    let again = parse_fasta(&format_fasta(&loaded));
    assert_eq!(again.len(), 2);
    assert_eq!(again[0].label, " Taxon_1");
    assert_eq!(again[0].content, "ATATTCG");
    assert_eq!(again[1].label, " Taxon_2");
    assert_eq!(again[1].content, "GG");
}

#[test]
fn pairwise_counts_every_pair() {
    let seqs = vec![seq("a", "AAAA"), seq("b", "AATT"), seq("c", "AAA")];
    let m = pairwise_hamming(&seqs);
    assert_eq!(*m.width(), 3);
    assert_eq!(*m.height(), 3);
    assert_eq!(*m.get(0, 1), Some(2));
    assert_eq!(*m.get(1, 0), Some(2));
    assert_eq!(*m.get(1, 1), Some(0));
    assert_eq!(*m.get(0, 2), None);
    assert_eq!(*m.get(2, 1), None);
    assert_eq!(*m.get(2, 2), Some(0));
}

#[test]
fn pairwise_of_no_sequences() {
    let m = pairwise_hamming(&Vec::new());
    assert_eq!(*m.width(), 0);
    assert_eq!(*m.height(), 0);
}

#[test]
fn shown_records_load_back_exactly() {
    let a = seq("Taxon_1", "ATATTCG");
    let b = seq("Taxon_2", "");
    let text = a.to_string() + &b.to_string();
    let r = parse_fasta(&text);
    assert_eq!(r.len(), 2);
    assert_eq!(r[0].label, "Taxon_1");
    assert_eq!(r[0].content, "ATATTCG");
    assert_eq!(r[1].label, "Taxon_2");
    assert_eq!(r[1].content, "");
}
