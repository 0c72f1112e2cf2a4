//! Genetic-code tables and reading-frame codon splitting.

use vstd::prelude::*;

use crate::bytes::copy_range;

verus! {

/// The rows of one NCBI genetic-code table: amino acid letters, start
/// markers, and the three bases of each of the 64 codons.
pub struct NCBITable {
    pub aas: String,
    pub starts: String,
    pub base1: String,
    pub base2: String,
    pub base3: String,
}

pub open spec fn supported_table(table_id: usize) -> bool {
    table_id == 1 || table_id == 11
}

/// The rows of NCBI genetic code `table_id`: amino acids, start markers and
/// the three bases of each codon.
pub open spec fn ncbi_rows(table_id: usize) -> (Seq<char>, Seq<char>, Seq<char>, Seq<char>, Seq<char>) {
    (
        "FFLLSSSSYY**CC*WLLLLPPPPHHQQRRRRIIIMTTTTNNKKSSRRVVVVAAAADDEEGGGG"@,
        if table_id == 1 {
            "---M------**--*----M---------------M----------------------------"@
        } else {
            "---M------**--*----M------------MMMM---------------M------------"@
        },
        "TTTTTTTTTTTTTTTTCCCCCCCCCCCCCCCCAAAAAAAAAAAAAAAAGGGGGGGGGGGGGGGG"@,
        "TTTTCCCCAAAAGGGGTTTTCCCCAAAAGGGGTTTTCCCCAAAAGGGGTTTTCCCCAAAAGGGG"@,
        "TCAGTCAGTCAGTCAGTCAGTCAGTCAGTCAGTCAGTCAGTCAGTCAGTCAGTCAGTCAGTCAG"@,
    )
}

impl NCBITable {
    /// The genetic code with the given NCBI identifier (1: standard,
    /// 11: bacterial, archaeal and plant plastid).
    pub fn get_translation_table(table_id: usize) -> (r: NCBITable)
        requires
            supported_table(table_id),
        ensures
            (r.aas@, r.starts@, r.base1@, r.base2@, r.base3@) == ncbi_rows(table_id),
    {
        let starts = if table_id == 1 {
            "---M------**--*----M---------------M----------------------------".to_owned()
        } else {
            "---M------**--*----M------------MMMM---------------M------------".to_owned()
        };
        NCBITable {
            aas: "FFLLSSSSYY**CC*WLLLLPPPPHHQQRRRRIIIMTTTTNNKKSSRRVVVVAAAADDEEGGGG".to_owned(),
            starts,
            base1: "TTTTTTTTTTTTTTTTCCCCCCCCCCCCCCCCAAAAAAAAAAAAAAAAGGGGGGGGGGGGGGGG".to_owned(),
            base2: "TTTTCCCCAAAAGGGGTTTTCCCCAAAAGGGGTTTTCCCCAAAAGGGGTTTTCCCCAAAAGGGG".to_owned(),
            base3: "TCAGTCAGTCAGTCAGTCAGTCAGTCAGTCAGTCAGTCAGTCAGTCAGTCAGTCAGTCAGTCAG".to_owned(),
        }
    }
}

/// Strand of a gene on its contig.
#[derive(Clone, Copy, Debug, PartialEq, Eq, Structural)]
pub enum Strand {
    Forward,
    Reverse,
    Unknown,
}

/// The IUPAC complement of a base, case kept; any other byte maps to itself.
pub open spec fn dna_complement(c: u8) -> u8 {
    if c == 'A' as u8 {
        'T' as u8
    } else if c == 'G' as u8 {
        'C' as u8
    } else if c == 'C' as u8 {
        'G' as u8
    } else if c == 'T' as u8 {
        'A' as u8
    } else if c == 'Y' as u8 {
        'R' as u8
    } else if c == 'R' as u8 {
        'Y' as u8
    } else if c == 'W' as u8 {
        'W' as u8
    } else if c == 'S' as u8 {
        'S' as u8
    } else if c == 'K' as u8 {
        'M' as u8
    } else if c == 'M' as u8 {
        'K' as u8
    } else if c == 'D' as u8 {
        'H' as u8
    } else if c == 'V' as u8 {
        'B' as u8
    } else if c == 'H' as u8 {
        'D' as u8
    } else if c == 'B' as u8 {
        'V' as u8
    } else if c == 'N' as u8 {
        'N' as u8
    } else if c == 'a' as u8 {
        't' as u8
    } else if c == 'g' as u8 {
        'c' as u8
    } else if c == 'c' as u8 {
        'g' as u8
    } else if c == 't' as u8 {
        'a' as u8
    } else if c == 'y' as u8 {
        'r' as u8
    } else if c == 'r' as u8 {
        'y' as u8
    } else if c == 'w' as u8 {
        'w' as u8
    } else if c == 's' as u8 {
        's' as u8
    } else if c == 'k' as u8 {
        'm' as u8
    } else if c == 'm' as u8 {
        'k' as u8
    } else if c == 'd' as u8 {
        'h' as u8
    } else if c == 'v' as u8 {
        'b' as u8
    } else if c == 'h' as u8 {
        'd' as u8
    } else if c == 'b' as u8 {
        'v' as u8
    } else if c == 'n' as u8 {
        'n' as u8
    } else {
        c
    }
}

/// The reverse complement of a byte sequence.
pub open spec fn revcomp_of(s: Seq<u8>) -> Seq<u8> {
    Seq::new(s.len(), |i: int| dna_complement(s[s.len() - 1 - i]))
}

/// Relies on bio::alphabets::dna::revcomp: the bytes in reverse order, each
/// mapped through its complement table.
#[verifier::external_body]
fn reverse_complement(s: &Vec<u8>) -> (r: Vec<u8>)
    ensures
        r@ == revcomp_of(s@),
{
    bio::alphabets::dna::revcomp(s.iter())
}

/// The strand-oriented sequence that codons are read from.
pub open spec fn oriented(s: Seq<u8>, strand: Strand) -> Seq<u8> {
    match strand {
        Strand::Reverse => revcomp_of(s),
        _ => s,
    }
}

/// Number of codons (the last one possibly shorter) in a sequence of `n` bases.
pub open spec fn codon_count(n: int) -> int {
    (n + 2) / 3
}

/// The `i`-th codon of `t`: three bases, or what is left at the end.
pub open spec fn codon_at(t: Seq<u8>, i: int) -> Seq<u8> {
    if 3 * i + 3 <= t.len() {
        t.subrange(3 * i, 3 * i + 3)
    } else {
        t.subrange(3 * i, t.len() as int)
    }
}

/// Splits the strand-oriented sequence, from offset `frame` on, into codons.
pub fn get_codons(sequence: Vec<u8>, frame: usize, strandedness: Strand) -> (r: Vec<Vec<u8>>)
    requires
        frame <= sequence@.len(),
    ensures
        r@.len() == codon_count(sequence@.len() - frame),
        forall|i: int|
            0 <= i < r@.len() ==> #[trigger] r@[i]@ == codon_at(
                oriented(sequence@, strandedness).skip(frame as int),
                i,
            ),
{
    let s = match strandedness {
        Strand::Reverse => reverse_complement(&sequence),
        _ => sequence,
    };
    let ghost t = s@.skip(frame as int);
    let n = s.len();
    let mut r: Vec<Vec<u8>> = Vec::new();
    let mut start: usize = frame;
    while start < n
        invariant
            frame <= start,
            n == s@.len(),
            t == s@.skip(frame as int),
            start < n ==> start - frame == 3 * r@.len(),
            start >= n ==> r@.len() == codon_count(n - frame),
            r@.len() <= codon_count(n - frame),
            (start - frame) % 3 == 0 || start == n,
            forall|i: int| 0 <= i < r@.len() ==> #[trigger] r@[i]@ == codon_at(t, i),
        decreases n - start,
    {
        let end: usize = if n - start >= 3 { start + 3 } else { n };
        let c = copy_range(&s, start, end);
        proof {
            let k = r@.len() as int;
            assert(c@ =~= codon_at(t, k));
        }
        r.push(c);
        start = end;
    }
    r
}

/// The codons that an NCBI table assigns to one symbol (an amino acid
/// letter, or a start marker).
pub struct CodonGroup {
    pub symbol: char,
    pub codons: Vec<(char, char, char)>,
}

/// The three base rows of a table.
pub open spec fn bases_of(t: NCBITable) -> (Seq<char>, Seq<char>, Seq<char>) {
    (t.base1@, t.base2@, t.base3@)
}

/// Codon `i` of a table with base rows `b`.
pub open spec fn codon_of(b: (Seq<char>, Seq<char>, Seq<char>), i: int) -> (char, char, char) {
    (b.0[i], b.1[i], b.2[i])
}

/// Whether `groups` lists `codon` under `symbol`.
pub open spec fn listed(groups: Seq<CodonGroup>, symbol: char, codon: (char, char, char)) -> bool {
    exists|g: int, c: int|
        0 <= g < groups.len() && 0 <= c < groups[g].codons@.len() && groups[g].symbol == symbol
            && groups[g].codons@[c] == codon
}

/// Whether one of the first `n` columns of the table gives `symbol` to `codon`.
pub open spec fn assigned(
    symbols: Seq<char>,
    t: (Seq<char>, Seq<char>, Seq<char>),
    n: int,
    symbol: char,
    codon: (char, char, char),
) -> bool {
    exists|i: int| 0 <= i < n && symbols[i] == symbol && codon_of(t, i) == codon
}

/// Whether `groups` hold, one group per symbol, exactly the codons that the
/// first `n` columns assign to each symbol of `symbols`.
pub open spec fn grouped(
    symbols: Seq<char>,
    t: (Seq<char>, Seq<char>, Seq<char>),
    n: int,
    groups: Seq<CodonGroup>,
) -> bool {
    &&& forall|a: int, b: int|
        0 <= a < groups.len() && 0 <= b < groups.len() && a != b ==> (#[trigger] groups[a]).symbol
            != (#[trigger] groups[b]).symbol
    &&& forall|g: int, c: int|
        0 <= g < groups.len() && 0 <= c < groups[g].codons@.len() ==> #[trigger] assigned(
            symbols,
            t,
            n,
            groups[g].symbol,
            groups[g].codons@[c],
        )
    &&& forall|i: int| 0 <= i < n ==> #[trigger] listed(groups, symbols[i], codon_of(t, i))
}

/// Number of complete columns of a table whose symbol row is `symbols`.
pub open spec fn columns(symbols: Seq<char>, t: (Seq<char>, Seq<char>, Seq<char>)) -> int {
    let a = if symbols.len() <= t.0.len() {
        symbols.len()
    } else {
        t.0.len()
    };
    let b = if a <= t.1.len() {
        a
    } else {
        t.1.len()
    };
    if b <= t.2.len() {
        b as int
    } else {
        t.2.len() as int
    }
}

fn find_group(groups: &Vec<CodonGroup>, symbol: char) -> (r: Option<usize>)
    ensures
        match r {
            Some(g) => g < groups@.len() && groups@[g as int].symbol == symbol,
            None => forall|g: int| 0 <= g < groups@.len() ==> (#[trigger] groups@[g]).symbol != symbol,
        },
{
    let mut g: usize = 0;
    while g < groups.len()
        invariant
            g <= groups@.len(),
            forall|h: int| 0 <= h < g ==> (#[trigger] groups@[h]).symbol != symbol,
        decreases groups@.len() - g,
    {
        if groups[g].symbol == symbol {
            return Some(g);
        }
        g = g + 1;
    }
    None
}

/// Groups the codons of table `t` by the symbol that `symbols` gives each.
pub fn group_codons(symbols: &String, t: &NCBITable) -> (r: Vec<CodonGroup>)
    ensures
        grouped(symbols@, bases_of(*t), columns(symbols@, bases_of(*t)), r@),
{
    let ls = symbols.as_str().unicode_len();
    let l1 = t.base1.as_str().unicode_len();
    let l2 = t.base2.as_str().unicode_len();
    let l3 = t.base3.as_str().unicode_len();
    let mut n = if ls <= l1 { ls } else { l1 };
    n = if n <= l2 { n } else { l2 };
    n = if n <= l3 { n } else { l3 };
    let mut groups: Vec<CodonGroup> = Vec::new();
    let mut i: usize = 0;
    while i < n
        invariant
            n == columns(symbols@, bases_of(*t)),
            i <= n,
            grouped(symbols@, bases_of(*t), i as int, groups@),
        decreases n - i,
    {
        let a = symbols.as_str().get_char(i);
        let codon = (
            t.base1.as_str().get_char(i),
            t.base2.as_str().get_char(i),
            t.base3.as_str().get_char(i),
        );
        assert(codon == codon_of(bases_of(*t), i as int));
        let ghost before = groups@;
        let ghost gi: int;
        let ghost ci: int;
        match find_group(&groups, a) {
            Some(g) => {
                let mut grp = groups.remove(g);
                grp.codons.push(codon);
                groups.insert(g, grp);
                proof {
                    gi = g as int;
                    ci = grp.codons@.len() - 1;
                    assert(groups@ =~= before.update(g as int, grp));
                }
            },
            None => {
                let mut codons: Vec<(char, char, char)> = Vec::new();
                codons.push(codon);
                groups.push(CodonGroup { symbol: a, codons });
                proof {
                    gi = before.len() as int;
                    ci = 0;
                }
            },
        }
        proof {
            let j = i as int;
            assert(groups@.len() >= before.len());
            assert(groups@[gi].symbol == a && groups@[gi].codons@[ci] == codon);
            assert forall|g: int|
                0 <= g < before.len() && g != gi implies #[trigger] groups@[g] == before[g] by {}
            assert forall|g: int, c: int|
                0 <= g < before.len() && 0 <= c < before[g].codons@.len() implies
                groups@[g].codons@[c] == before[g].codons@[c] && groups@[g].symbol == before[g].symbol by {
                if g == gi {
                }
            }
            assert forall|a1: int, b1: int|
                0 <= a1 < groups@.len() && 0 <= b1 < groups@.len() && a1 != b1 implies (
                #[trigger] groups@[a1]).symbol != (#[trigger] groups@[b1]).symbol by {
                if a1 < before.len() && b1 < before.len() {
                    assert(before[a1].symbol != before[b1].symbol);
                }
            }
            assert forall|g: int, c: int|
                0 <= g < groups@.len() && 0 <= c < groups@[g].codons@.len() implies #[trigger] assigned(
                    symbols@,
                    bases_of(*t),
                    j + 1,
                    groups@[g].symbol,
                    groups@[g].codons@[c],
                ) by {
                if g == gi && c == ci {
                    assert(symbols@[j] == a && codon_of(bases_of(*t), j) == codon);
                } else {
                    assert(g < before.len() && c < before[g].codons@.len());
                    assert(assigned(symbols@, bases_of(*t), j, before[g].symbol, before[g].codons@[c]));
                    let w = choose|w: int|
                        0 <= w < j && symbols@[w] == before[g].symbol && codon_of(bases_of(*t), w)
                            == before[g].codons@[c];
                    assert(0 <= w < j + 1);
                }
            }
            assert forall|k: int| 0 <= k < j + 1 implies #[trigger] listed(
                groups@,
                symbols@[k],
                codon_of(bases_of(*t), k),
            ) by {
                if k == j {
                    assert(groups@[gi].symbol == symbols@[k] && groups@[gi].codons@[ci] == codon_of(bases_of(*t), k));
                } else {
                    assert(listed(before, symbols@[k], codon_of(bases_of(*t), k)));
                    let (g, c) = choose|g: int, c: int|
                        0 <= g < before.len() && 0 <= c < before[g].codons@.len() && before[g].symbol
                            == symbols@[k] && before[g].codons@[c] == codon_of(bases_of(*t), k);
                    assert(groups@[g].codons@[c] == before[g].codons@[c]);
                }
            }
        }
        i = i + 1;
    }
    groups
}

/// A codon table: for each amino acid letter (and for each start marker), the
/// codons that the NCBI table assigns to it.
pub struct CodonTable {
    pub aminos: Vec<CodonGroup>,
    pub starts: Vec<CodonGroup>,
}

impl CodonTable {
    /// An empty codon table.
    pub fn setup() -> (r: CodonTable)
        ensures
            r.aminos@.len() == 0,
            r.starts@.len() == 0,
    {
        CodonTable { aminos: Vec::new(), starts: Vec::new() }
    }

    /// Fills the table from NCBI genetic code `table_id`.
    pub fn get_codon_table(&mut self, table_id: usize)
        requires
            supported_table(table_id),
        ensures
            ({
                let rows = ncbi_rows(table_id);
                let b = (rows.2, rows.3, rows.4);
                &&& grouped(rows.0, b, columns(rows.0, b), final(self).aminos@)
                &&& grouped(rows.1, b, columns(rows.1, b), final(self).starts@)
            }),
    {
        let t = NCBITable::get_translation_table(table_id);
        self.aminos = group_codons(&t.aas, &t);
        self.starts = group_codons(&t.starts, &t);
    }
}

} // verus!
