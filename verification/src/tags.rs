//! Named tags with display colors, stored one per line as `name:color`.
use vstd::prelude::*;
use crate::hashing::{default_hash_str};
use crate::strmap::TextMap;
use crate::text::{
    has_char, is_ws, lemma_first_index, lemma_lines_join, lemma_trim_id, chars_of, decimal, join, lines, push_digits, push_joined, push_str, split_lines, split_once,
    split_once_chars, string_of, string_views, trim, trim_chars, views,
};

verus! {

/// A tag and its color.
#[derive(Debug, Clone)]
pub struct Tag {
    pub name: String,
    pub color: String,
}

/// All tags, by name.
#[derive(Debug)]
pub struct TagStore {
    pub tags: TextMap<Tag>,
}

/// Why a tag command was refused.
#[derive(Debug, Clone, Copy, PartialEq, Eq)]
pub enum TagError {
    /// A tag of that name exists already.
    AlreadyExists,
    /// No tag has that name.
    NotFound,
}

/// A tag as plain values.
pub struct TagModel {
    pub name: Seq<char>,
    pub color: Seq<char>,
}

impl Tag {
    pub open spec fn model(&self) -> TagModel {
        TagModel { name: self.name@, color: self.color@ }
    }
}

impl TagStore {
    /// The tags, by name.
    pub open spec fn model(&self) -> Map<Seq<char>, TagModel> {
        self.tags@.map_values(|t: Tag| t.model())
    }

    /// The store is consistent.
    pub open spec fn wf(&self) -> bool {
        self.tags.wf()
    }
}

// ─── Reading and writing ─────────────────────────────────────────────────────

/// The tags after reading one more line of the tags file.
pub open spec fn load_step(acc: Map<Seq<char>, TagModel>, raw: Seq<char>) -> Map<Seq<char>, TagModel> {
    let l = trim(raw);
    if l.len() == 0 || l[0] == '#' {
        acc
    } else {
        match split_once(l, ':') {
            Some((name, color)) => acc.insert(name, TagModel { name, color }),
            None => acc,
        }
    }
}

/// The tags that the lines `ls` of the tags file denote.
pub open spec fn load_lines(ls: Seq<Seq<char>>) -> Map<Seq<char>, TagModel>
    decreases ls.len(),
{
    if ls.len() == 0 {
        Map::empty()
    } else {
        load_step(load_lines(ls.drop_last()), ls.last())
    }
}

/// The line a tag is written as.
pub open spec fn tag_line(t: TagModel) -> Seq<char> {
    t.name + seq![':'] + t.color
}

/// The text of the tags file: one line per tag, in name order.
pub open spec fn tags_text(tags: Seq<TagModel>) -> Seq<char> {
    join(tags.map_values(|t: TagModel| tag_line(t)), seq!['\n'])
}

impl TagStore {
    /// No tags.
    pub fn new() -> (r: Self)
        ensures
            r.wf(),
            r.model() == Map::<Seq<char>, TagModel>::empty(),
    {
        let r = TagStore { tags: TextMap::new() };
        proof {
            assert(r.model() =~= Map::<Seq<char>, TagModel>::empty());
        }
        r
    }

    /// The tags that the tags file holds; `None` when there is no file to read.
    pub fn load(content: Option<&str>) -> (r: Self)
        ensures
            r.wf(),
            r.model() == match content {
                Some(c) => load_lines(lines(c@)),
                None => Map::<Seq<char>, TagModel>::empty(),
            },
    {
        let mut store = TagStore::new();
        let c = match content {
            Some(c) => c,
            None => return store,
        };
        let ls = split_lines(chars_of(c).as_slice());
        let ghost lv = views(ls@);
        let mut i: usize = 0;
        while i < ls.len()
            invariant
                i <= ls@.len(),
                lv == views(ls@),
                lv == lines(c@),
                store.wf(),
                store.model() == load_lines(lv.take(i as int)),
            decreases ls@.len() - i,
        {
            let l = trim_chars(ls[i].as_slice());
            proof {
                assert(lv.take(i + 1).drop_last() =~= lv.take(i as int));
                assert(lv.take(i + 1).last() == ls@[i as int]@);
            }
            if !(l.len() == 0 || l[0] == '#') {
                match split_once_chars(l.as_slice(), ':') {
                    Some((name, color)) => {
                        let ghost before = store.model();
                        let t = Tag { name: string_of(name.as_slice()), color: string_of(color.as_slice()) };
                        let ghost tm = t.model();
                        store.tags.insert(string_of(name.as_slice()), t);
                        proof {
                            assert(store.model() =~= before.insert(name@, tm));
                        }
                    },
                    None => {},
                }
            }
            i = i + 1;
        }
        proof {
            assert(lv.take(i as int) =~= lv);
        }
        store
    }

    /// The text of the tags file for these tags: `name:color` lines in name order.
    pub fn serialize(&self) -> (r: String)
        requires
            self.wf(),
        ensures
            r@ == tags_text(self.tags.values().map_values(|t: Tag| t.model())),
    {
        let n = self.tags.len();
        let ghost vs = self.tags.values().map_values(|t: Tag| t.model());
        proof {
            self.tags.lemma_lens();
        }
        let mut ls: Vec<String> = Vec::new();
        let mut i: usize = 0;
        while i < n
            invariant
                i <= n == self.tags.keys().len(),
                self.tags.values().len() == n,
                vs == self.tags.values().map_values(|t: Tag| t.model()),
                string_views(ls@) == vs.take(i as int).map_values(|t: TagModel| tag_line(t)),
            decreases n - i,
        {
            let t = self.tags.value_at(i);
            let mut line: Vec<char> = Vec::new();
            push_str(&mut line, t.name.as_str());
            line.push(':');
            push_str(&mut line, t.color.as_str());
            let ghost before = string_views(ls@);
            ls.push(string_of(line.as_slice()));
            proof {
                assert(line@ =~= tag_line(t.model()));
                assert(vs[i as int] == t.model());
                assert(vs.take(i + 1).map_values(|t: TagModel| tag_line(t)) =~= vs.take(
                    i as int,
                ).map_values(|t: TagModel| tag_line(t)).push(tag_line(t.model())));
                assert(string_views(ls@) =~= before.push(tag_line(t.model())));
            }
            i = i + 1;
        }
        proof {
            assert(vs.take(i as int) =~= vs);
        }
        let mut out: Vec<char> = Vec::new();
        push_joined(&mut out, &ls, '\n');
        proof {
            assert(out@ =~= tags_text(vs));
        }
        string_of(out.as_slice())
    }
}

// ─── Commands ────────────────────────────────────────────────────────────────

/// The color text made for a tag whose name hashes to `h`: a hue below 360, a
/// saturation of 70 to 89 percent and a lightness of 45 to 59 percent, drawn from
/// different bits of `h`.
pub open spec fn color_text(h: u64) -> Seq<char> {
    seq!['h', 's', 'l', '('] + decimal(((h >> 8u64) % 360) as nat) + seq![',', ' ']
        + decimal((70 + (h >> 16u64) % 20) as nat) + seq!['%', ',', ' ']
        + decimal((45 + (h >> 24u64) % 15) as nat) + seq!['%', ')']
}

/// The color given to a new tag `name` that comes without one.
pub fn generate_color(name: &str) -> (r: String)
    ensures
        r@ == color_text(default_hash_str(name@)),
{
    let hash = crate::hashing::hash_str(name);
    let hue = (hash >> 8) % 360;
    let saturation = 70 + (hash >> 16) % 20;
    let lightness = 45 + (hash >> 24) % 15;
    let mut out: Vec<char> = vec!['h', 's', 'l', '('];
    push_digits(&mut out, hue, 10);
    out.push(',');
    out.push(' ');
    push_digits(&mut out, saturation, 10);
    out.push('%');
    out.push(',');
    out.push(' ');
    push_digits(&mut out, lightness, 10);
    out.push('%');
    out.push(')');
    proof {
        assert(out@ =~= color_text(hash));
    }
    string_of(out.as_slice())
}

impl TagStore {
    /// Adds the tag `name` with `color`, or with a color made from its name when none is
    /// given; returns the color. Refused when the tag exists.
    pub fn create(&mut self, name: &str, color: Option<&str>) -> (r: Result<String, TagError>)
        requires
            old(self).wf(),
        ensures
            final(self).wf(),
            old(self).model().contains_key(name@) ==> r == Err::<String, TagError>(TagError::AlreadyExists)
                && final(self).model() == old(self).model(),
            !old(self).model().contains_key(name@) ==> (r matches Ok(c) && c@ == match color {
                Some(x) => x@,
                None => color_text(default_hash_str(name@)),
            } && final(self).model() == old(self).model().insert(
                name@,
                TagModel { name: name@, color: c@ },
            )),
    {
        if self.tags.contains_key(name) {
            return Err(TagError::AlreadyExists);
        }
        let final_color = match color {
            Some(c) => String::from_str(c),
            None => generate_color(name),
        };
        let t = Tag { name: String::from_str(name), color: final_color.clone() };
        let ghost before = self.model();
        let ghost tm = t.model();
        self.tags.insert(String::from_str(name), t);
        proof {
            assert(self.model() =~= before.insert(name@, tm));
        }
        Ok(final_color)
    }

    /// Removes the tag `name`. Refused when there is no such tag.
    pub fn delete(&mut self, name: &str) -> (r: Result<(), TagError>)
        requires
            old(self).wf(),
        ensures
            final(self).wf(),
            old(self).model().contains_key(name@) <==> r is Ok,
            r is Err ==> r == Err::<(), TagError>(TagError::NotFound),
            final(self).model() == old(self).model().remove(name@),
    {
        let ghost before = self.model();
        let removed = self.tags.remove(name);
        proof {
            assert(self.model() =~= before.remove(name@));
        }
        match removed {
            Some(_) => Ok(()),
            None => Err(TagError::NotFound),
        }
    }
}


// ─── Laws ────────────────────────────────────────────────────────────────────

/// A tag survives being written as a line of the tags file and read back: its name is
/// not empty, starts with neither `#` nor white space, and holds no `:` or line break;
/// its color holds no line break and does not end with white space.
pub open spec fn tag_writable(t: TagModel) -> bool {
    &&& t.name.len() > 0
    &&& t.name[0] != '#'
    &&& !is_ws(t.name[0])
    &&& !has_char(t.name, ':')
    &&& !has_char(t.name, '\n')
    &&& !has_char(t.color, '\n')
    &&& (t.color.len() > 0 ==> !is_ws(t.color.last()))
}

/// The tags `ts` by name, a later tag of a name winning.
pub open spec fn tags_by_name(ts: Seq<TagModel>) -> Map<Seq<char>, TagModel>
    decreases ts.len(),
{
    if ts.len() == 0 {
        Map::empty()
    } else {
        tags_by_name(ts.drop_last()).insert(ts.last().name, ts.last())
    }
}

/// Reading the line of a writable tag adds that tag.
proof fn lemma_read_tag_line(acc: Map<Seq<char>, TagModel>, t: TagModel)
    requires
        tag_writable(t),
    ensures
        load_step(acc, tag_line(t)) == acc.insert(t.name, t),
{
    let l = tag_line(t);
    let n = t.name.len() as int;
    assert(l[0] == t.name[0]);
    if t.color.len() > 0 {
        assert(l.last() == t.color.last());
    } else {
        assert(l.last() == ':');
        assert(!is_ws(':'));
    }
    lemma_trim_id(l);
    assert(l[n] == ':');
    assert forall|j: int| 0 <= j < n implies l[j] != ':' by {
        assert(l[j] == t.name[j]);
    }
    lemma_first_index(l, ':', n);
    assert(l.take(n) =~= t.name);
    assert(l.skip(n + 1) =~= t.color);
}

/// Writing writable tags and reading the text back gives the tags by name.
pub proof fn lemma_tags_roundtrip(ts: Seq<TagModel>)
    requires
        forall|i: int| 0 <= i < ts.len() ==> tag_writable(#[trigger] ts[i]),
    ensures
        load_lines(lines(tags_text(ts))) == tags_by_name(ts),
    decreases ts.len(),
{
    let ls = ts.map_values(|t: TagModel| tag_line(t));
    assert forall|i: int| 0 <= i < ls.len() implies (#[trigger] ls[i]).len() > 0 && !has_char(ls[i], '\n')
        && ls[i].last() != '\r' by {
        let t = ts[i];
        assert(tag_writable(t));
        assert(ls[i] == tag_line(t));
        assert(ls[i][0] == t.name[0]);
        if has_char(ls[i], '\n') {
            let j = choose|j: int| 0 <= j < ls[i].len() && ls[i][j] == '\n';
            if j < t.name.len() {
                assert(t.name[j] == '\n');
            } else if j == t.name.len() {
            } else {
                assert(t.color[j - t.name.len() - 1] == '\n');
            }
        }
        if t.color.len() > 0 {
            assert(ls[i].last() == t.color.last());
        }
        assert(is_ws('\r'));
    }
    lemma_lines_join(ls);
    lemma_load_tag_lines(ts);
}

/// Reading the lines of writable tags gives the tags by name.
proof fn lemma_load_tag_lines(ts: Seq<TagModel>)
    requires
        forall|i: int| 0 <= i < ts.len() ==> tag_writable(#[trigger] ts[i]),
    ensures
        load_lines(ts.map_values(|t: TagModel| tag_line(t))) == tags_by_name(ts),
    decreases ts.len(),
{
    let ls = ts.map_values(|t: TagModel| tag_line(t));
    if ts.len() > 0 {
        let pre = ts.drop_last();
        assert(ls.drop_last() =~= pre.map_values(|t: TagModel| tag_line(t)));
        lemma_load_tag_lines(pre);
        assert(ls.last() == tag_line(ts.last()));
        assert(tag_writable(ts[ts.len() - 1]));
        lemma_read_tag_line(load_lines(ls.drop_last()), ts.last());
    } else {
        assert(ls =~= Seq::<Seq<char>>::empty());
    }
}

/// Tags that a map holds under their names, gathered by name, are that map on their
/// names.
proof fn lemma_tags_by_name_of(ts: Seq<TagModel>, m: Map<Seq<char>, TagModel>)
    requires
        forall|i: int| 0 <= i < ts.len() ==> m.contains_key((#[trigger] ts[i]).name) && m[ts[i].name] == ts[i],
    ensures
        tags_by_name(ts) == Map::new(|k: Seq<char>| exists|i: int| 0 <= i < ts.len() && ts[i].name == k, |k: Seq<char>| m[k]),
    decreases ts.len(),
{
    if ts.len() == 0 {
        assert(tags_by_name(ts) =~= Map::new(|k: Seq<char>| exists|i: int| 0 <= i < ts.len() && ts[i].name == k, |k: Seq<char>| m[k]));
    } else {
        let pre = ts.drop_last();
        assert forall|i: int| 0 <= i < pre.len() implies m.contains_key((#[trigger] pre[i]).name) && m[pre[i].name] == pre[i] by {
            assert(pre[i] == ts[i]);
        }
        lemma_tags_by_name_of(pre, m);
        let last = ts.last();
        assert(ts[ts.len() - 1] == last);
        let want = Map::new(|k: Seq<char>| exists|i: int| 0 <= i < ts.len() && ts[i].name == k, |k: Seq<char>| m[k]);
        assert forall|k: Seq<char>| #[trigger] tags_by_name(ts).contains_key(k) <==> want.contains_key(k) by {
            if want.contains_key(k) {
                let i = choose|i: int| 0 <= i < ts.len() && ts[i].name == k;
                if i < ts.len() - 1 {
                    assert(pre[i] == ts[i]);
                }
            }
            if tags_by_name(pre).contains_key(k) {
                let i = choose|i: int| 0 <= i < pre.len() && pre[i].name == k;
                assert(ts[i] == pre[i]);
            }
        }
        assert(tags_by_name(ts) =~= want);
    }
}

impl TagStore {
    /// Every tag is kept under its own name and can be written and read back.
    pub open spec fn writable(&self) -> bool {
        forall|i: int|
            0 <= i < self.tags.keys().len() ==> (#[trigger] self.tags.values()[i]).name@ == self.tags.keys()[i]
                && tag_writable(self.tags.values()[i].model())
    }
}

/// Saving a store of writable tags and loading the text gives the same tags.
pub proof fn lemma_store_roundtrip(s: TagStore)
    requires
        s.wf(),
        s.writable(),
    ensures
        load_lines(lines(tags_text(s.tags.values().map_values(|t: Tag| t.model())))) == s.model(),
{
    let vs = s.tags.values().map_values(|t: Tag| t.model());
    s.tags.lemma_view_dom();
    s.tags.lemma_lens();
    assert forall|i: int| 0 <= i < vs.len() implies tag_writable(#[trigger] vs[i]) by {
        assert(vs[i] == s.tags.values()[i].model());
    }
    lemma_tags_roundtrip(vs);
    assert forall|i: int| 0 <= i < vs.len() implies s.model().contains_key((#[trigger] vs[i]).name) && s.model()[vs[i].name] == vs[i] by {
        assert(vs[i] == s.tags.values()[i].model());
        assert(vs[i].name == s.tags.keys()[i]);
        assert(s.tags@[s.tags.keys()[i]] == s.tags.values()[i]);
    }
    lemma_tags_by_name_of(vs, s.model());
    assert forall|k: Seq<char>| s.model().contains_key(k) <==> (exists|i: int| 0 <= i < vs.len() && vs[i].name == k) by {
        if s.model().contains_key(k) {
            assert(s.tags@.contains_key(k));
            let i = choose|i: int| 0 <= i < s.tags.keys().len() && s.tags.keys()[i] == k;
            assert(vs[i] == s.tags.values()[i].model());
        }
        if exists|i: int| 0 <= i < vs.len() && vs[i].name == k {
            let i = choose|i: int| 0 <= i < vs.len() && vs[i].name == k;
            assert(vs[i] == s.tags.values()[i].model());
            assert(s.tags@.contains_key(s.tags.keys()[i]));
        }
    }
    assert(tags_by_name(vs) =~= s.model());
}


/// A made-up color is an HSL text with a hue below 360, a saturation of 70 to 89 percent
/// and a lightness of 45 to 59 percent.
pub proof fn lemma_color_ranges(h: u64)
    ensures
        exists|hue: nat, sat: nat, light: nat|
            hue < 360 && 70 <= sat <= 89 && 45 <= light <= 59 && color_text(h) == seq!['h', 's', 'l', '(']
                + decimal(hue) + seq![',', ' '] + decimal(sat) + seq!['%', ',', ' '] + decimal(light)
                + seq!['%', ')'],
{
    let hue = ((h >> 8u64) % 360) as nat;
    let sat = (70 + (h >> 16u64) % 20) as nat;
    let light = (45 + (h >> 24u64) % 15) as nat;
    assert(hue < 360 && 70 <= sat <= 89 && 45 <= light <= 59);
    assert(color_text(h) == seq!['h', 's', 'l', '('] + decimal(hue) + seq![',', ' '] + decimal(sat)
        + seq!['%', ',', ' '] + decimal(light) + seq!['%', ')']);
}

} // verus!
