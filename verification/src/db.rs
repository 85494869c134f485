//! The package database: where it is unpacked, its decompression, and the
//! key/value parser for the `desc` files it holds.
use std::io::Read;
use vstd::prelude::*;

verus! {

/// The directory, below `data_dir`, that the database is unpacked into.
pub open spec fn temp_dir_of(data_dir: Seq<char>) -> Seq<char> {
    data_dir + "/temp"@
}

/// The unpack directory starts with the whole data directory and ends with
/// `/temp`; so two data directories never share an unpack directory.
pub proof fn temp_dir_is_below_data_dir(data_dir: Seq<char>, other: Seq<char>)
    ensures
        temp_dir_of(data_dir).len() == data_dir.len() + 5,
        temp_dir_of(data_dir).subrange(0, data_dir.len() as int) == data_dir,
        temp_dir_of(data_dir).subrange(data_dir.len() as int, data_dir.len() + 5int) == "/temp"@,
        data_dir != other ==> temp_dir_of(data_dir) != temp_dir_of(other),
{
    reveal_strlit("/temp");
    let d = temp_dir_of(data_dir);
    assert(d.subrange(0, data_dir.len() as int) =~= data_dir);
    assert(d.subrange(data_dir.len() as int, data_dir.len() + 5int) =~= "/temp"@);
    let o = temp_dir_of(other);
    assert("/temp"@.len() == 5);
    assert(d.len() == data_dir.len() + 5);
    assert(o.len() == other.len() + 5);
    if d == o {
        assert(data_dir.len() == other.len());
        assert(o.subrange(0, other.len() as int) =~= other);
    }
}

pub fn temp_dir_path(data_dir: &str) -> (dir: String)
    ensures
        dir@ == temp_dir_of(data_dir@),
        dir@ == data_dir@ + "/temp"@,
{
    let mut dir = String::from_str(data_dir);
    dir.append("/temp");
    dir
}

/// `std::io::Error`, the error a gzip decoder stops on.
#[verifier::external_type_specification]
#[verifier::external_body]
pub struct ExIoError(std::io::Error);

/// What reading a `flate2::read::GzDecoder` over `data` to its end yields:
/// the decompressed bytes it hands out before it stops, and whether it
/// stopped at the end of the gzip member (`true`) rather than on an error in
/// the data.
pub uninterp spec fn gzip_decode(data: Seq<u8>) -> (Seq<u8>, bool);

/// Reads a `flate2::read::GzDecoder` over `data` with `read_to_end`, which
/// keeps the bytes read before an error.  The reader is a byte slice, which
/// cannot fail, so an error comes from the gzip data alone.
#[verifier::external_body]
fn gunzip(data: &[u8]) -> (r: (Vec<u8>, Option<std::io::Error>))
    ensures
        (r.0@, r.1 is None) == gzip_decode(data@),
{
    let mut out = Vec::new();
    match flate2::read::GzDecoder::new(data).read_to_end(&mut out) {
        Ok(_) => (out, None),
        Err(e) => (out, Some(e)),
    }
}

/// The tar archive inside the gzip-compressed package database: the bytes
/// decompressed before the decoder stopped, and the error it stopped on, if
/// any.  Reading the bytes and then meeting the error is what reading the
/// decoder itself gives.
pub fn db_archive(data: &[u8]) -> (r: (Vec<u8>, Option<std::io::Error>))
    ensures
        r.0@ == gzip_decode(data@).0,
        r.1 is None <==> gzip_decode(data@).1,
{
    gunzip(data)
}

/// The state of the `desc` parser in the abstract: whether it expects values
/// (or a key), the current key, and each key's values.
pub struct DescModel {
    pub in_value: bool,
    pub key: Seq<char>,
    pub entries: Map<Seq<char>, Seq<Seq<char>>>,
}

/// One line of a `desc` file.  Expecting a key, the line becomes the current
/// key, with no values yet (a key seen before loses its values).  Expecting
/// values, a non-empty line is appended to the current key's values, and an
/// empty line makes the parser expect a key again.
pub open spec fn desc_step(m: DescModel, line: Seq<char>) -> DescModel {
    if !m.in_value {
        DescModel { in_value: true, key: line, entries: m.entries.insert(line, Seq::empty()) }
    } else if line.len() > 0 {
        DescModel {
            in_value: true,
            key: m.key,
            entries: m.entries.insert(m.key, m.entries[m.key].push(line)),
        }
    } else {
        DescModel { in_value: false, key: m.key, entries: m.entries }
    }
}

/// The parser's start: expecting a key, with no entries.
pub open spec fn desc_start() -> DescModel {
    DescModel { in_value: false, key: Seq::empty(), entries: Map::empty() }
}

/// The state after the lines `lines`, in order, from `m`.
pub open spec fn desc_parse(m: DescModel, lines: Seq<Seq<char>>) -> DescModel
    decreases lines.len(),
{
    if lines.len() == 0 {
        m
    } else {
        desc_step(desc_parse(m, lines.drop_last()), lines.last())
    }
}

pub open spec fn string_views(s: Seq<String>) -> Seq<Seq<char>> {
    s.map_values(|x: String| x@)
}

pub open spec fn values_views(v: Seq<Vec<String>>) -> Seq<Seq<Seq<char>>> {
    v.map_values(|x: Vec<String>| string_views(x@))
}

/// The map that an association list with distinct keys stands for.
pub open spec fn assoc_map(
    keys: Seq<Seq<char>>,
    values: Seq<Seq<Seq<char>>>,
) -> Map<Seq<char>, Seq<Seq<char>>> {
    Map::new(|k: Seq<char>| keys.contains(k), |k: Seq<char>| values[keys.index_of(k)])
}

proof fn lemma_index_of_distinct(keys: Seq<Seq<char>>, j: int)
    requires
        keys.no_duplicates(),
        0 <= j < keys.len(),
    ensures
        keys.index_of(keys[j]) == j,
{
    assert(keys.contains(keys[j]));
    let i = keys.index_of(keys[j]);
    assert(0 <= i < keys.len() && keys[i] == keys[j]);
}

proof fn lemma_assoc_update(
    keys: Seq<Seq<char>>,
    values: Seq<Seq<Seq<char>>>,
    j: int,
    x: Seq<Seq<char>>,
)
    requires
        keys.no_duplicates(),
        keys.len() == values.len(),
        0 <= j < keys.len(),
    ensures
        assoc_map(keys, values.update(j, x)) == assoc_map(keys, values).insert(keys[j], x),
{
    let m1 = assoc_map(keys, values.update(j, x));
    let m2 = assoc_map(keys, values).insert(keys[j], x);
    assert(keys.contains(keys[j]));
    assert forall|k: Seq<char>| #[trigger] m1.contains_key(k) implies m1[k] == m2[k] by {
        let i = keys.index_of(k);
        assert(0 <= i < keys.len() && keys[i] == k);
        lemma_index_of_distinct(keys, i);
        if k == keys[j] {
            lemma_index_of_distinct(keys, j);
        }
    }
    assert(m1 =~= m2);
}

proof fn lemma_assoc_push(
    keys: Seq<Seq<char>>,
    values: Seq<Seq<Seq<char>>>,
    k: Seq<char>,
    x: Seq<Seq<char>>,
)
    requires
        keys.no_duplicates(),
        keys.len() == values.len(),
        !keys.contains(k),
    ensures
        keys.push(k).no_duplicates(),
        assoc_map(keys.push(k), values.push(x)) == assoc_map(keys, values).insert(k, x),
{
    let nk = keys.push(k);
    let nv = values.push(x);
    assert forall|a: int, b: int| 0 <= a < nk.len() && 0 <= b < nk.len() && a != b implies nk[a]
        != nk[b] by {
        if a < keys.len() && b < keys.len() {
        } else if a == keys.len() {
            assert(nk[b] == keys[b]);
        } else {
            assert(nk[a] == keys[a]);
        }
    }
    let m1 = assoc_map(nk, nv);
    let m2 = assoc_map(keys, values).insert(k, x);
    assert(nk[keys.len() as int] == k);
    assert(nk.contains(k));
    assert forall|q: Seq<char>| #[trigger] m2.contains_key(q) implies m1.contains_key(q) by {
        if q != k {
            let i = keys.index_of(q);
            assert(nk[i] == q);
        }
    }
    assert forall|q: Seq<char>| #[trigger] m1.contains_key(q) implies m2.contains_key(q) && m1[q]
        == m2[q] by {
        let i = nk.index_of(q);
        assert(0 <= i < nk.len() && nk[i] == q);
        lemma_index_of_distinct(nk, i);
        if q == k {
            lemma_index_of_distinct(nk, keys.len() as int);
        } else {
            assert(i < keys.len());
            assert(keys[i] == q);
            lemma_index_of_distinct(keys, i);
        }
    }
    assert(m1 =~= m2);
}

/// Whether the parser expects a key or values.
pub enum ParseState {
    Key,
    Value,
}

/// The parser of `desc` files, fed one line at a time.
pub struct DescParser {
    state: ParseState,
    key: usize,
    keys: Vec<String>,
    values: Vec<Vec<String>>,
}

impl DescParser {
    pub closed spec fn model(&self) -> DescModel {
        DescModel {
            in_value: self.state is Value,
            key: if self.key < self.keys@.len() {
                self.keys@[self.key as int]@
            } else {
                Seq::empty()
            },
            entries: assoc_map(string_views(self.keys@), values_views(self.values@)),
        }
    }

    pub closed spec fn wf(&self) -> bool {
        &&& self.keys@.len() == self.values@.len()
        &&& string_views(self.keys@).no_duplicates()
        &&& self.state is Value ==> self.key < self.keys@.len()
    }

    pub fn new() -> (p: DescParser)
        ensures
            p.wf(),
            p.model() == desc_start(),
    {
        let p = DescParser { state: ParseState::Key, key: 0, keys: Vec::new(), values: Vec::new() };
        assert(p.model().entries =~= Map::<Seq<char>, Seq<Seq<char>>>::empty());
        p
    }

    /// Whether the parser expects values.
    pub fn in_value(&self) -> (b: bool)
        ensures
            b == self.model().in_value,
    {
        match self.state {
            ParseState::Key => false,
            ParseState::Value => true,
        }
    }

    /// Takes one line.
    pub fn feed_line(&mut self, line: String)
        requires
            old(self).wf(),
        ensures
            final(self).wf(),
            final(self).model() == desc_step(old(self).model(), line@),
            !old(self).model().in_value ==> {
                &&& final(self).model().in_value
                &&& final(self).model().key == line@
                &&& final(self).model().entries == old(self).model().entries.insert(
                    line@,
                    Seq::empty(),
                )
            },
            old(self).model().in_value && line@.len() > 0 ==> {
                &&& final(self).model().in_value
                &&& final(self).model().key == old(self).model().key
                &&& final(self).model().entries == old(self).model().entries.insert(
                    old(self).model().key,
                    old(self).model().entries[old(self).model().key].push(line@),
                )
            },
            old(self).model().in_value && line@.len() == 0 ==> {
                &&& !final(self).model().in_value
                &&& final(self).model().entries == old(self).model().entries
            },
    {
        let ghost kv = string_views(self.keys@);
        let ghost vv = values_views(self.values@);
        let ghost lv = line@;
        match self.state {
            ParseState::Key => {
                let mut j: usize = 0;
                let mut found = false;
                let n = self.keys.len();
                while j < n && !found
                    invariant
                        n == self.keys@.len(),
                        j <= n,
                        kv == string_views(self.keys@),
                        found ==> j < n && kv[j as int] == line@,
                        !found ==> forall|i: int| 0 <= i < j ==> kv[i] != line@,
                    decreases n - j + if found { 0int } else { 1int },
                {
                    if self.keys[j] == line {
                        found = true;
                    } else {
                        j = j + 1;
                    }
                }
                if found {
                    proof {
                        lemma_assoc_update(kv, vv, j as int, Seq::empty());
                    }
                    let empty: Vec<String> = Vec::new();
                    assert(string_views(empty@) =~= Seq::<Seq<char>>::empty());
                    self.values.set(j, empty);
                    assert(values_views(self.values@) =~= vv.update(j as int, Seq::empty()));
                    self.key = j;
                    assert(string_views(self.keys@)[j as int] == self.keys@[j as int]@);
                } else {
                    proof {
                        assert(!kv.contains(line@));
                        lemma_assoc_push(kv, vv, line@, Seq::empty());
                    }
                    self.keys.push(line);
                    let empty: Vec<String> = Vec::new();
                    assert(string_views(empty@) =~= Seq::<Seq<char>>::empty());
                    self.values.push(empty);
                    assert(string_views(self.keys@) =~= kv.push(line@));
                    assert(values_views(self.values@) =~= vv.push(Seq::empty()));
                    self.key = n;
                    assert(self.keys@[n as int]@ == lv);
                }
                self.state = ParseState::Value;
                assert(self.model().key == lv);
                assert(self.model().entries == old(self).model().entries.insert(lv, Seq::empty()));
            },
            ParseState::Value => {
                if !line.as_str().is_empty() {
                    let k = self.key;
                    proof {
                        lemma_index_of_distinct(kv, k as int);
                        lemma_assoc_update(kv, vv, k as int, vv[k as int].push(line@));
                    }
                    let ghost lv = line@;
                    let ghost inner = self.values@[k as int];
                    self.values[k].push(line);
                    assert(string_views(self.values@[k as int]@) =~= string_views(inner@).push(lv));
                    assert(values_views(self.values@) =~= vv.update(k as int, vv[k as int].push(lv)));
                } else {
                    self.state = ParseState::Key;
                }
            },
        }
    }

    /// The values of `key`, when the parser has seen it as a key.
    pub fn values_of(&self, key: &String) -> (r: Option<&Vec<String>>)
        requires
            self.wf(),
        ensures
            r is Some <==> self.model().entries.contains_key(key@),
            r matches Some(v) ==> string_views(v@) == self.model().entries[key@],
    {
        let ghost kv = string_views(self.keys@);
        let n = self.keys.len();
        let mut j: usize = 0;
        while j < n
            invariant
                n == self.keys@.len(),
                self.wf(),
                j <= n,
                kv == string_views(self.keys@),
                forall|i: int| 0 <= i < j ==> kv[i] != key@,
            decreases n - j,
        {
            if self.keys[j] == *key {
                proof {
                    assert(kv[j as int] == key@);
                    assert(kv.contains(key@));
                    lemma_index_of_distinct(kv, j as int);
                }
                return Some(&self.values[j]);
            }
            j = j + 1;
        }
        proof {
            if kv.contains(key@) {
                let i = kv.index_of(key@);
                assert(0 <= i < kv.len() && kv[i] == key@);
            }
        }
        None
    }

    /// The number of distinct keys seen.
    pub fn key_count(&self) -> (n: usize)
        requires
            self.wf(),
        ensures
            n == self.model().entries.dom().len(),
    {
        proof {
            let kv = string_views(self.keys@);
            assert(self.model().entries.dom() =~= kv.to_set());
            kv.unique_seq_to_set();
        }
        self.keys.len()
    }
}

/// Parses the lines of a `desc` file, in order.
pub fn parse_desc_lines(lines: &Vec<String>) -> (p: DescParser)
    ensures
        p.wf(),
        p.model() == desc_parse(desc_start(), string_views(lines@)),
{
    let mut p = DescParser::new();
    let ghost lv = string_views(lines@);
    let n = lines.len();
    let mut k: usize = 0;
    while k < n
        invariant
            k <= n,
            n == lines@.len(),
            lv == string_views(lines@),
            p.wf(),
            p.model() == desc_parse(desc_start(), lv.take(k as int)),
        decreases n - k,
    {
        let line = lines[k].clone();
        proof {
            assert(lv.take(k + 1).drop_last() =~= lv.take(k as int));
            assert(lv.take(k + 1).last() == line@);
        }
        p.feed_line(line);
        k = k + 1;
    }
    proof {
        assert(lv.take(n as int) =~= lv);
    }
    p
}

/// What one line does, in every state: a line where a key is expected
/// becomes the key, with no values yet; a non-empty line where values are
/// expected is appended to the current key's values, whatever keys came
/// before; an empty line there ends the block and changes no entry.
pub proof fn desc_line_effect(m: DescModel, line: Seq<char>)
    ensures
        !m.in_value ==> {
            let r = desc_step(m, line);
            &&& r.in_value
            &&& r.key == line
            &&& r.entries.dom() == m.entries.dom().insert(line)
            &&& r.entries[line] == Seq::<Seq<char>>::empty()
            &&& forall|k: Seq<char>| k != line && #[trigger] m.entries.contains_key(k) ==> r.entries[k] == m.entries[k]
        },
        m.in_value && line.len() > 0 ==> {
            let r = desc_step(m, line);
            &&& r.in_value
            &&& r.key == m.key
            &&& r.entries == m.entries.insert(m.key, m.entries[m.key].push(line))
        },
        m.in_value && line.len() == 0 ==> {
            let r = desc_step(m, line);
            &&& !r.in_value
            &&& r.entries == m.entries
        },
{
}

/// Every line is fed to the parser, the last one after all the others.
pub proof fn desc_parse_takes_every_line(m: DescModel, lines: Seq<Seq<char>>)
    requires
        lines.len() > 0,
    ensures
        desc_parse(m, lines) == desc_step(desc_parse(m, lines.drop_last()), lines.last()),
{
}

/// Parsing two runs of lines one after the other is parsing the second from
/// where the first left off.
pub proof fn desc_parse_concat(m: DescModel, a: Seq<Seq<char>>, b: Seq<Seq<char>>)
    ensures
        desc_parse(m, a + b) == desc_parse(desc_parse(m, a), b),
    decreases b.len(),
{
    if b.len() == 0 {
        assert(a + b =~= a);
    } else {
        desc_parse_concat(m, a, b.drop_last());
        assert((a + b).drop_last() =~= a + b.drop_last());
        assert((a + b).last() == b.last());
    }
}

/// The lines of `desc` blocks: each key, its one value, and an empty line.
pub open spec fn desc_blocks(keys: Seq<Seq<char>>, values: Seq<Seq<char>>) -> Seq<Seq<char>>
    decreases keys.len(),
{
    if keys.len() == 0 {
        Seq::empty()
    } else {
        desc_blocks(keys.drop_last(), values.drop_last()) + seq![
            keys.last(),
            values.last(),
            Seq::<char>::empty(),
        ]
    }
}

/// Blocks of a key, one non-empty value and an empty line, with keys all
/// different, give each key exactly its value, and no other key; the parser
/// then expects a key again.
pub proof fn desc_blocks_parse_to_their_values(keys: Seq<Seq<char>>, values: Seq<Seq<char>>)
    requires
        keys.len() == values.len(),
        keys.no_duplicates(),
        forall|i: int| 0 <= i < values.len() ==> (#[trigger] values[i]).len() > 0,
    ensures
        !desc_parse(desc_start(), desc_blocks(keys, values)).in_value,
        desc_parse(desc_start(), desc_blocks(keys, values)).entries.dom() == keys.to_set(),
        forall|i: int|
            0 <= i < keys.len() ==> desc_parse(desc_start(), desc_blocks(keys, values)).entries[#[trigger] keys[i]]
                == seq![values[i]],
    decreases keys.len(),
{
    let r = desc_parse(desc_start(), desc_blocks(keys, values));
    if keys.len() == 0 {
        assert(r.entries.dom() =~= keys.to_set());
    } else {
        let n = keys.len() - 1;
        let ks = keys.drop_last();
        let vs = values.drop_last();
        assert forall|i: int| 0 <= i < vs.len() implies (#[trigger] vs[i]).len() > 0 by {
            assert(vs[i] == values[i]);
        }
        assert forall|a: int, b: int| 0 <= a < ks.len() && 0 <= b < ks.len() && a != b implies ks[a]
            != ks[b] by {
            assert(ks[a] == keys[a] && ks[b] == keys[b]);
        }
        desc_blocks_parse_to_their_values(ks, vs);
        let r0 = desc_parse(desc_start(), desc_blocks(ks, vs));
        let k = keys.last();
        let v = values.last();
        let blk = seq![k, v, Seq::<char>::empty()];
        desc_parse_concat(desc_start(), desc_blocks(ks, vs), blk);
        let b1 = seq![k];
        let b2 = seq![k, v];
        assert(blk.drop_last() =~= b2);
        assert(b2.drop_last() =~= b1);
        assert(b1.drop_last() =~= Seq::<Seq<char>>::empty());
        let r1 = desc_step(r0, k);
        let r2 = desc_step(r1, v);
        let r3 = desc_step(r2, Seq::<char>::empty());
        assert(desc_parse(r0, b1.drop_last()) == r0);
        assert(desc_parse(r0, b1) == r1);
        assert(desc_parse(r0, b2) == r2);
        assert(desc_parse(r0, blk) == r3);
        assert(r == r3);
        assert(v == values[n]);
        assert(r3.entries == r0.entries.insert(k, seq![v]));
        assert(keys =~= ks.push(k));
        assert(r.entries.dom() =~= keys.to_set()) by {
            assert forall|q: Seq<char>| #[trigger] keys.to_set().contains(q) implies r.entries.dom().contains(q) by {
                let i = choose|i: int| 0 <= i < keys.len() && keys[i] == q;
                if i < n {
                    assert(ks[i] == q);
                    assert(ks.to_set().contains(q));
                }
            }
            assert forall|q: Seq<char>| r.entries.dom().contains(q) implies #[trigger] keys.to_set().contains(q) by {
                if q != k {
                    assert(ks.to_set().contains(q));
                    let i = choose|i: int| 0 <= i < ks.len() && ks[i] == q;
                    assert(keys[i] == q);
                } else {
                    assert(keys[n] == q);
                }
            }
        }
        assert forall|i: int| 0 <= i < keys.len() implies r.entries[#[trigger] keys[i]] == seq![values[i]] by {
            if i < n {
                assert(keys[i] != keys[n]);
                assert(ks[i] == keys[i]);
                assert(vs[i] == values[i]);
            }
        }
    }
}

/// Lines that are never empty, such as those that `read_line` yields with
/// their line break, never end a block: the first line is the only key, and
/// every later line is one of its values.
pub proof fn nonempty_lines_form_one_block(lines: Seq<Seq<char>>)
    requires
        lines.len() > 0,
        forall|i: int| 0 <= i < lines.len() ==> (#[trigger] lines[i]).len() > 0,
    ensures
        desc_parse(desc_start(), lines).in_value,
        desc_parse(desc_start(), lines).key == lines[0],
        desc_parse(desc_start(), lines).entries == map![lines[0] => lines.drop_first()],
    decreases lines.len(),
{
    if lines.len() == 1 {
        assert(lines.drop_last() =~= Seq::<Seq<char>>::empty());
        assert(lines.drop_first() =~= Seq::<Seq<char>>::empty());
        assert(desc_parse(desc_start(), lines.drop_last()) == desc_start());
        assert(desc_parse(desc_start(), lines).entries =~= map![lines[0] => lines.drop_first()]);
    } else {
        let init = lines.drop_last();
        assert forall|i: int| 0 <= i < init.len() implies (#[trigger] init[i]).len() > 0 by {
            assert(init[i] == lines[i]);
        }
        nonempty_lines_form_one_block(init);
        assert(init[0] == lines[0]);
        assert(init.drop_first().push(lines.last()) =~= lines.drop_first());
        assert(desc_parse(desc_start(), lines).entries =~= map![lines[0] => lines.drop_first()]);
    }
}

} // verus!
