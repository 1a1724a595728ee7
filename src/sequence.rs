//! Protein sequences and their residues.
use vstd::prelude::*;
use vstd::std_specs::iter::IteratorSpec;
use vstd::string::StringExecFns;

verus! {

/// One residue of a sequence: its letter, its index from 0 (`id`) and its
/// position from 1.
#[derive(Clone, Copy, Debug, PartialEq, Eq, Structural)]
pub struct AminoAcid {
    pub id: i32,
    pub amino_acid: char,
    pub position: i32,
}

/// A named sequence together with one `AminoAcid` per character.
#[derive(Clone, Debug)]
pub struct Sequence {
    pub id: i32,
    pub name: String,
    pub description: String,
    pub sequence: String,
    pub amino_acids: Vec<AminoAcid>,
}

/// The residue of the letter `c` at index `i`: id `i`, position `i + 1`.
pub open spec fn residue(i: int, c: char) -> AminoAcid {
    AminoAcid { id: i as i32, amino_acid: c, position: (i + 1) as i32 }
}

/// Whether `rs` holds one residue per letter of `s`, in order.
pub open spec fn residues_of(rs: Seq<AminoAcid>, s: Seq<char>) -> bool {
    &&& rs.len() == s.len()
    &&& forall|j: int| 0 <= j < s.len() ==> #[trigger] rs[j] == residue(j, s[j])
}

/// Appending a letter appends its residue.
proof fn lemma_residues_push(rs: Seq<AminoAcid>, s: Seq<char>, c: char)
    requires
        residues_of(rs, s),
    ensures
        residues_of(rs.push(residue(s.len() as int, c)), s.push(c)),
{
    let r = residue(s.len() as int, c);
    assert forall|j: int| 0 <= j < s.len() + 1 implies #[trigger] rs.push(r)[j] == residue(
        j,
        s.push(c)[j],
    ) by {
        if j < s.len() {
            assert(rs.push(r)[j] == rs[j]);
            assert(s.push(c)[j] == s[j]);
        }
    }
}

impl Sequence {
    /// A sequence whose residues are its characters, in order.
    pub fn new(id: i32, name: String, description: String, sequence: String) -> (r: Sequence)
        requires
            sequence@.len() <= i32::MAX,
        ensures
            r.id == id,
            r.name@ == name@,
            r.description@ == description@,
            r.sequence@ == sequence@,
            residues_of(r.amino_acids@, sequence@),
    {
        let mut amino_acids: Vec<AminoAcid> = Vec::new();
        let mut chars = sequence.as_str().chars();
        let ghost letters = sequence@;
        let mut i: usize = 0;
        proof {
            assert(letters.skip(0) =~= letters);
        }
        loop
            invariant
                i <= letters.len(),
                letters == sequence@,
                letters.len() <= i32::MAX,
                chars.remaining() == letters.skip(i as int),
                chars.obeys_prophetic_iter_laws(),
                residues_of(amino_acids@, letters.take(i as int)),
            ensures
                residues_of(amino_acids@, letters),
            decreases letters.len() - i,
        {
            match chars.next() {
                Some(c) => {
                    proof {
                        assert(letters.skip(i as int)[0] == letters[i as int]);
                        assert(letters.skip(i as int + 1) =~= letters.skip(i as int).drop_first());
                    }
                    proof {
                        lemma_residues_push(amino_acids@, letters.take(i as int), c);
                        assert(letters.take(i + 1) =~= letters.take(i as int).push(c));
                    }
                    amino_acids.push(
                        AminoAcid { id: i as i32, amino_acid: c, position: (i + 1) as i32 },
                    );
                    i = i + 1;
                },
                None => {
                    proof {
                        assert(letters.take(i as int) =~= letters);
                    }
                    break ;
                },
            }
        }
        Sequence { id, name, description, sequence, amino_acids }
    }
}

/// The character of the decimal digit `d`.
pub open spec fn digit_char(d: nat) -> char {
    seq!['0', '1', '2', '3', '4', '5', '6', '7', '8', '9'][d as int]
}

/// The decimal digits of `v`, most significant first, with no leading zero.
pub open spec fn decimal(v: nat) -> Seq<char>
    decreases v,
{
    if v < 10 {
        seq![digit_char(v)]
    } else {
        decimal(v / 10).push(digit_char(v % 10))
    }
}

/// `v` written in decimal, with a leading `-` when it is negative.
pub open spec fn signed_decimal(v: int) -> Seq<char> {
    if v < 0 {
        seq!['-'] + decimal((-v) as nat)
    } else {
        decimal(v as nat)
    }
}

fn digit_str(d: u32) -> (r: &'static str)
    requires
        d < 10,
    ensures
        r@ == seq![digit_char(d as nat)],
{
    match d {
        0 => {
            proof {
                reveal_strlit("0");
            }
            "0"
        },
        1 => {
            proof {
                reveal_strlit("1");
            }
            "1"
        },
        2 => {
            proof {
                reveal_strlit("2");
            }
            "2"
        },
        3 => {
            proof {
                reveal_strlit("3");
            }
            "3"
        },
        4 => {
            proof {
                reveal_strlit("4");
            }
            "4"
        },
        5 => {
            proof {
                reveal_strlit("5");
            }
            "5"
        },
        6 => {
            proof {
                reveal_strlit("6");
            }
            "6"
        },
        7 => {
            proof {
                reveal_strlit("7");
            }
            "7"
        },
        8 => {
            proof {
                reveal_strlit("8");
            }
            "8"
        },
        _ => {
            proof {
                reveal_strlit("9");
            }
            "9"
        },
    }
}

fn append_decimal(s: &mut String, v: u32)
    ensures
        final(s)@ == old(s)@ + decimal(v as nat),
    decreases v,
{
    if v >= 10 {
        append_decimal(s, v / 10);
    }
    s.append(digit_str(v % 10));
    proof {
        if v >= 10 {
            assert(old(s)@ + decimal(v as nat) =~= old(s)@ + decimal((v / 10) as nat) + seq![
                digit_char((v % 10) as nat),
            ]);
        } else {
            assert(v % 10 == v);
        }
    }
}

/// A sequence together with the address of its page.
#[derive(Clone, Debug)]
pub struct SequenceUrl {
    pub sequence: Sequence,
    pub url: String,
}

impl SequenceUrl {
    /// The page of `sequence` lies at `prefix/id`, with the id in decimal.
    pub fn new(sequence: Sequence, prefix: String) -> (r: SequenceUrl)
        ensures
            r.sequence == sequence,
            r.url@ == prefix@ + seq!['/'] + signed_decimal(sequence.id as int),
    {
        let mut url = prefix;
        proof {
            reveal_strlit("/");
            reveal_strlit("-");
        }
        url.append("/");
        let id = sequence.id;
        if id < 0 {
            url.append("-");
            let magnitude = (-(id as i64)) as u32;
            append_decimal(&mut url, magnitude);
            proof {
                assert(prefix@ + seq!['/'] + seq!['-'] + decimal(magnitude as nat) =~= prefix@
                    + seq!['/'] + signed_decimal(id as int));
            }
        } else {
            append_decimal(&mut url, id as u32);
            proof {
                assert(prefix@ + seq!['/'] + decimal(id as nat) =~= prefix@ + seq!['/']
                    + signed_decimal(id as int));
            }
        }
        SequenceUrl { sequence, url }
    }
}

} // verus!
