use mlrs::sequence::{AminoAcid, Sequence, SequenceUrl};

#[test]
fn residues_follow_the_letters() {
    let s = Sequence::new(1, "C0001".to_string(), "test".to_string(), "DIVM".to_string());
    assert_eq!(s.id, 1);
    assert_eq!(s.name, "C0001");
    assert_eq!(s.sequence, "DIVM");
    assert_eq!(s.amino_acids.len(), 4);
    assert_eq!(s.amino_acids[0], AminoAcid { id: 0, amino_acid: 'D', position: 1 });
    assert_eq!(s.amino_acids[2], AminoAcid { id: 2, amino_acid: 'V', position: 3 });
    assert_eq!(s.amino_acids[3], AminoAcid { id: 3, amino_acid: 'M', position: 4 });
}

#[test]
fn empty_sequence_has_no_residues() {
    let s = Sequence::new(7, "x".to_string(), String::new(), String::new());
    assert!(s.amino_acids.is_empty());
    assert_eq!(s.description, "");
}

#[test]
fn long_sequence_positions() {
    let letters = "DIVMTQSPLSSVTPGKSISCKASGFTFSYAYYMDVWGQGTTVTVSS";
    let s = Sequence::new(2, "C0002".to_string(), "test".to_string(), letters.to_string());
    assert_eq!(s.amino_acids.len(), letters.chars().count());
    for (i, c) in letters.chars().enumerate() {
        assert_eq!(s.amino_acids[i].amino_acid, c);
        assert_eq!(s.amino_acids[i].id, i as i32);
        assert_eq!(s.amino_acids[i].position, i as i32 + 1);
    }
}

#[test]
fn url_holds_prefix_and_id() {
    let s = Sequence::new(12, "C0012".to_string(), "test".to_string(), "DIV".to_string());
    let u = SequenceUrl::new(s, "/sequences".to_string());
    assert_eq!(u.url, "/sequences/12");
    assert_eq!(u.sequence.id, 12);
    assert_eq!(u.sequence.amino_acids.len(), 3);
}

#[test]
fn url_of_extreme_ids() {
    for id in [0i32, 7, 10, 305, -4, i32::MAX, i32::MIN] {
        let s = Sequence::new(id, "n".to_string(), "d".to_string(), String::new());
        let u = SequenceUrl::new(s, "/seq".to_string());
        assert_eq!(u.url, format!("/seq/{}", id));
    }
}
