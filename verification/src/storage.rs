//! How frames are named on disk, and in what order they are read back.
use vstd::prelude::*;
use vstd::string::StringExecFns;
use crate::lex::{
    byte_values, compare_bytes, lemma_lex_irreflexive, lemma_lex_total, lemma_lex_transitive,
    lex_less, Comparison,
};
use crate::models::AggregatedFrame;
use crate::order::{
    is_arrangement, lemma_arrangement_covers, positions, sort_indices, strict_total, IndexOrder,
};
use crate::text::{
    all_digits, decimal, is_digit, lemma_decimal_injective, lemma_decimal_round_trip, push_decimal,
};

verus! {

/// The name of a frame's file.
pub open spec fn frame_file_name(window_end: u64, frame_id: u64) -> Seq<char> {
    "frame_"@ + decimal(window_end as nat) + "_"@ + decimal(frame_id as nat) + ".json"@
}

/// The name under which a file is written before it is complete.
pub open spec fn temp_name(name: Seq<char>) -> Seq<char> {
    "."@ + name + ".tmp"@
}

/// The names for one frame: it is written in full under the first, then renamed to the second.
#[derive(Debug)]
pub struct FrameFile {
    pub temp_name: String,
    pub final_name: String,
}

/// The directory that holds the frames.
#[derive(Debug)]
pub struct DataStorage {
    pub base_path: String,
}

impl DataStorage {
    /// A storage in the given directory.
    pub fn new(base_path: String) -> (r: Self)
        ensures
            r.base_path@ == base_path@,
    {
        DataStorage { base_path }
    }

    /// The names for one frame.
    pub fn file_for(&self, frame: &AggregatedFrame) -> (r: FrameFile)
        ensures
            r.final_name@ == frame_file_name(frame.window_end, frame.frame_id),
            r.temp_name@ == temp_name(r.final_name@),
    {
        let mut final_name = "frame_".to_string();
        push_decimal(&mut final_name, frame.window_end);
        final_name.append("_");
        push_decimal(&mut final_name, frame.frame_id);
        final_name.append(".json");
        let mut temp_name = ".".to_string();
        temp_name.append(final_name.as_str());
        temp_name.append(".tmp");
        FrameFile { temp_name, final_name }
    }
}

/// Two texts that go on with different runs of digits, each followed by the same other
/// character, differ.
proof fn lemma_digit_runs(a: Seq<char>, b: Seq<char>, x: Seq<char>, y: Seq<char>)
    requires
        all_digits(a),
        all_digits(b),
        x.len() > 0,
        y.len() > 0,
        !is_digit(x[0]),
        !is_digit(y[0]),
        a + x == b + y,
    ensures
        a == b,
        x == y,
{
    if a.len() < b.len() {
        assert((a + x)[a.len() as int] == x[0]);
        assert((b + y)[a.len() as int] == b[a.len() as int]);
        assert(false);
    }
    if b.len() < a.len() {
        assert((b + y)[b.len() as int] == y[0]);
        assert((a + x)[b.len() as int] == a[b.len() as int]);
        assert(false);
    }
    assert forall|i: int| 0 <= i < a.len() implies a[i] == b[i] by {
        assert((a + x)[i] == a[i]);
        assert((b + y)[i] == b[i]);
    }
    assert(a =~= b);
    assert(x =~= (a + x).skip(a.len() as int));
    assert(y =~= (b + y).skip(b.len() as int));
}

/// Frames that differ in the end of their window or in their identifier have different files, so
/// no frame overwrites another.
pub proof fn lemma_file_names_differ(
    window_end: u64,
    frame_id: u64,
    other_end: u64,
    other_id: u64,
)
    requires
        frame_file_name(window_end, frame_id) == frame_file_name(other_end, other_id),
    ensures
        window_end == other_end,
        frame_id == other_id,
{
    reveal_strlit("frame_");
    reveal_strlit("_");
    reveal_strlit(".json");
    let a = decimal(window_end as nat);
    let b = decimal(other_end as nat);
    let c = decimal(frame_id as nat);
    let d = decimal(other_id as nat);
    lemma_decimal_round_trip(window_end as nat);
    lemma_decimal_round_trip(other_end as nat);
    lemma_decimal_round_trip(frame_id as nat);
    lemma_decimal_round_trip(other_id as nat);
    let x = "_"@ + (c + ".json"@);
    let y = "_"@ + (d + ".json"@);
    assert(frame_file_name(window_end, frame_id).skip(6) =~= a + x);
    assert(frame_file_name(other_end, other_id).skip(6) =~= b + y);
    lemma_digit_runs(a, b, x, y);
    assert(x.skip(1) =~= c + ".json"@);
    assert(y.skip(1) =~= d + ".json"@);
    lemma_digit_runs(c, d, ".json"@, ".json"@);
    lemma_decimal_injective(window_end as nat, other_end as nat);
    lemma_decimal_injective(frame_id as nat, other_id as nat);
}

/// The suffix of frame files.
pub open spec fn json_suffix() -> Seq<u8> {
    seq![0x2e, 0x6a, 0x73, 0x6f, 0x6e]
}

/// Whether a file of this name is read as a frame file: its extension is `json`, and something
/// stands before the extension.
pub open spec fn is_frame_file(name: Seq<u8>) -> bool {
    name.len() > 5 && name.skip(name.len() - 5) == json_suffix()
}

/// The bytes of a text of ASCII characters.
pub open spec fn ascii_bytes(s: Seq<char>) -> Seq<u8> {
    s.map_values(|c: char| c as u8)
}

/// A finished frame file is read back; one that is still being written is not.
pub proof fn lemma_only_finished_files_are_read(window_end: u64, frame_id: u64)
    ensures
        is_frame_file(ascii_bytes(frame_file_name(window_end, frame_id))),
        !is_frame_file(ascii_bytes(temp_name(frame_file_name(window_end, frame_id)))),
{
    reveal_strlit("frame_");
    reveal_strlit("_");
    reveal_strlit(".json");
    reveal_strlit(".");
    reveal_strlit(".tmp");
    let name = frame_file_name(window_end, frame_id);
    let n = name.len() as int;
    assert(name.skip(n - 5) =~= ".json"@);
    assert forall|i: int| 0 <= i < 5 implies name[n - 5 + i] == ".json"@[i] by {
        assert(name.skip(n - 5)[i] == name[n - 5 + i]);
    }
    assert(ascii_bytes(name).skip(n - 5) =~= json_suffix());
    let temp = temp_name(name);
    let m = temp.len() as int;
    assert(temp[m - 1] == 'p');
    assert(ascii_bytes(temp).skip(m - 5)[4] == 'p' as u8);
    assert(json_suffix()[4] == 0x6e);
}

/// Whether the name at `i` is read before the one at `j`: by bytes, and by position where the
/// names are the same.
pub open spec fn read_before(names: Seq<Seq<u8>>, i: int, j: int) -> bool {
    lex_less(byte_values(names[i]), byte_values(names[j])) || (byte_values(names[i])
        == byte_values(names[j]) && i < j)
}

/// The names in a list.
pub open spec fn name_views(v: Seq<Vec<u8>>) -> Seq<Seq<u8>> {
    v.map_values(|n: Vec<u8>| n@)
}

/// The order in which names are read.
struct ReadingOrder<'a> {
    names: &'a Vec<Vec<u8>>,
}

impl<'a> IndexOrder for ReadingOrder<'a> {
    closed spec fn size(&self) -> nat {
        self.names@.len()
    }

    closed spec fn rel(&self) -> spec_fn(int, int) -> bool {
        |i: int, j: int| read_before(name_views(self.names@), i, j)
    }

    proof fn rel_is_strict_total(&self) {
        let names = name_views(self.names@);
        let rel = self.rel();
        assert forall|i: int| 0 <= i < names.len() implies !#[trigger] rel(i, i) by {
            lemma_lex_irreflexive(byte_values(names[i]));
        }
        assert forall|i: int, j: int|
            0 <= i < names.len() && 0 <= j < names.len() && i != j implies #[trigger] rel(i, j)
            || rel(j, i) by {
            lemma_lex_total(byte_values(names[i]), byte_values(names[j]));
        }
        assert forall|i: int, j: int, k: int|
            0 <= i < names.len() && 0 <= j < names.len() && 0 <= k < names.len()
                && #[trigger] rel(i, j) && #[trigger] rel(j, k) implies rel(i, k) by {
            let a = byte_values(names[i]);
            let b = byte_values(names[j]);
            let c = byte_values(names[k]);
            if lex_less(a, b) && lex_less(b, c) {
                lemma_lex_transitive(a, b, c);
            }
        }
        assert(strict_total(self.size(), rel));
    }

    fn count(&self) -> (n: usize) {
        self.names.len()
    }

    fn precedes(&self, i: usize, j: usize) -> (b: bool) {
        proof {
            lemma_lex_irreflexive(byte_values(self.names@[i as int]@));
        }
        match compare_bytes(&self.names[i], &self.names[j]) {
            Comparison::Before => true,
            Comparison::Same => i < j,
            Comparison::After => false,
        }
    }
}

/// Whether a file of this name is read as a frame file.
fn has_json_extension(name: &Vec<u8>) -> (b: bool)
    ensures
        b == is_frame_file(name@),
{
    let n = name.len();
    if n <= 5 {
        return false;
    }
    let b = name[n - 5] == 0x2e && name[n - 4] == 0x6a && name[n - 3] == 0x73 && name[n - 2]
        == 0x6f && name[n - 1] == 0x6e;
    proof {
        let tail = name@.skip(n - 5);
        assert(tail[0] == name@[n - 5]);
        assert(tail[1] == name@[n - 4]);
        assert(tail[2] == name@[n - 3]);
        assert(tail[3] == name@[n - 2]);
        assert(tail[4] == name@[n - 1]);
        if b {
            assert(tail =~= json_suffix());
        }
    }
    b
}

/// Which of the names in a directory are frame files, in the order in which they are read.
pub fn frame_files(names: &Vec<Vec<u8>>) -> (r: Vec<usize>)
    ensures
        forall|k: int|
            0 <= k < r@.len() ==> (#[trigger] r@[k]) < names@.len() && is_frame_file(
                names@[r@[k] as int]@,
            ),
        forall|i: int|
            0 <= i < names@.len() && is_frame_file((#[trigger] names@[i])@) ==> positions(
                r@,
            ).contains(i),
        forall|a: int, b: int|
            0 <= a < b < r@.len() ==> read_before(
                name_views(names@),
                #[trigger] r@[a] as int,
                #[trigger] r@[b] as int,
            ),
{
    let order = ReadingOrder { names };
    let at = sort_indices(&order);
    let ghost pos = positions(at@);
    let ghost rel = order.rel();
    let mut r: Vec<usize> = Vec::new();
    let mut k: usize = 0;
    while k < at.len()
        invariant
            k <= at.len(),
            pos == positions(at@),
            rel == order.rel(),
            order.names == names,
            is_arrangement(order.size(), rel, pos),
            forall|j: int|
                0 <= j < r@.len() ==> (#[trigger] r@[j]) < names@.len() && is_frame_file(
                    names@[r@[j] as int]@,
                ) && exists|m: int| 0 <= m < k && #[trigger] at@[m] == r@[j],
            forall|m: int|
                0 <= m < k && is_frame_file(names@[(#[trigger] at@[m]) as int]@) ==> r@.contains(
                    at@[m],
                ),
            forall|a: int, b: int|
                0 <= a < b < r@.len() ==> rel(
                    #[trigger] r@[a] as int,
                    #[trigger] r@[b] as int,
                ),
        decreases at.len() - k,
    {
        let i = at[k];
        proof {
            assert(pos[k as int] == i);
        }
        let ghost before = r@;
        if has_json_extension(&names[i]) {
            proof {
                assert forall|a: int| 0 <= a < before.len() implies rel(
                    #[trigger] before[a] as int,
                    i as int,
                ) by {
                    let m = choose|m: int| 0 <= m < k && #[trigger] at@[m] == before[a];
                    assert(pos[m] == at@[m]);
                    assert(rel(pos[m], pos[k as int]));
                }
            }
            r.push(i);
            proof {
                assert(r@[before.len() as int] == i);
                assert(at@[k as int] == i);
                assert forall|m: int|
                    0 <= m < k + 1 && is_frame_file(
                        names@[(#[trigger] at@[m]) as int]@,
                    ) implies r@.contains(at@[m]) by {
                    if m < k {
                        let j = choose|j: int| 0 <= j < before.len() && before[j] == at@[m];
                        assert(r@[j] == at@[m]);
                    }
                }
                assert forall|a: int, b: int| 0 <= a < b < r@.len() implies rel(
                    #[trigger] r@[a] as int,
                    #[trigger] r@[b] as int,
                ) by {
                    assert(r@[a] == before[a]);
                    if b < before.len() {
                        assert(r@[b] == before[b]);
                    }
                }
            }
        }
        k = k + 1;
    }
    proof {
        assert forall|i: int|
            0 <= i < names@.len() && is_frame_file((#[trigger] names@[i])@) implies positions(
            r@,
        ).contains(i) by {
            lemma_arrangement_covers(order.size(), rel, pos, i);
            let m = choose|m: int| 0 <= m < pos.len() && pos[m] == i;
            assert(at@[m] == i);
            let j = choose|j: int| 0 <= j < r@.len() && r@[j] == at@[m];
            assert(positions(r@)[j] == i);
        }
        assert forall|a: int, b: int| 0 <= a < b < r@.len() implies read_before(
            name_views(names@),
            #[trigger] r@[a] as int,
            #[trigger] r@[b] as int,
        ) by {
            assert(rel(r@[a] as int, r@[b] as int));
        }
    }
    r
}

/// A frame's file is named by the end of its window and by its identifier; while it is written, it
/// has a dot before its name and another extension.
pub proof fn lemma_names_of_files(window_end: u64, frame_id: u64, name: Seq<char>)
    ensures
        frame_file_name(window_end, frame_id) == "frame_"@ + decimal(window_end as nat) + "_"@
            + decimal(frame_id as nat) + ".json"@,
        temp_name(name) == "."@ + name + ".tmp"@,
{
}

/// A file is a frame file exactly where its name ends in `.json`, in bytes, and is longer than
/// that.
pub proof fn lemma_what_is_a_frame_file(name: Seq<u8>)
    ensures
        is_frame_file(name) <==> name.len() >= 6 && name[name.len() - 5] == 0x2e && name[name.len()
            - 4] == 0x6a && name[name.len() - 3] == 0x73 && name[name.len() - 2] == 0x6f
            && name[name.len() - 1] == 0x6e,
{
    if name.len() >= 6 {
        let t = name.skip(name.len() - 5);
        assert(t[0] == name[name.len() - 5]);
        assert(t[1] == name[name.len() - 4]);
        assert(t[2] == name[name.len() - 3]);
        assert(t[3] == name[name.len() - 2]);
        assert(t[4] == name[name.len() - 1]);
        if t[0] == 0x2e && t[1] == 0x6a && t[2] == 0x73 && t[3] == 0x6f && t[4] == 0x6e {
            assert(t =~= json_suffix());
        }
    }
}

/// Files are read in the order of the bytes of their names: where two names agree up to a byte that
/// differs, or one is the start of the other, that decides; the same name keeps its place.
pub proof fn lemma_files_are_read_by_name(names: Seq<Seq<u8>>, i: int, j: int, k: int)
    requires
        0 <= i < names.len(),
        0 <= j < names.len(),
    ensures
        0 <= k < names[j].len() && k <= names[i].len() && (forall|m: int|
            0 <= m < k ==> #[trigger] names[i][m] == names[j][m]) && (k == names[i].len()
            || names[i][k] < names[j][k]) ==> read_before(names, i, j) && !read_before(names, j, i),
        names[i] == names[j] ==> (read_before(names, i, j) <==> i < j),
{
    if 0 <= k < names[j].len() && k <= names[i].len() && (forall|m: int|
        0 <= m < k ==> #[trigger] names[i][m] == names[j][m]) && (k == names[i].len()
        || names[i][k] < names[j][k]) {
        crate::lex::lemma_first_byte_decides(names[i], names[j], k);
    }
    lemma_lex_irreflexive(byte_values(names[i]));
}

/// Names are said one by one, and so are the bytes of a text of ASCII characters.
pub proof fn lemma_names_one_by_one(v: Seq<Vec<u8>>, s: Seq<char>)
    ensures
        name_views(v).len() == v.len(),
        forall|k: int| 0 <= k < v.len() ==> #[trigger] name_views(v)[k] == v[k]@,
        ascii_bytes(s).len() == s.len(),
        forall|k: int|
            0 <= k < s.len() && 0 <= s[k] as int && (s[k] as int) < 0x80 ==> #[trigger] ascii_bytes(
                s,
            )[k] == s[k] as int,
{
}

} // verus!
