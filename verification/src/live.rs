//! Live reload: which changed `.hv` files to push to the browser, how each push is framed as a server-sent event, and
//! which port the server listens on.

use vstd::prelude::*;
use vstd::string::*;

use crate::text::{push_char, same_text};

verus! {

// - - - - - - - - - - - - - - - - - - - - - - - - - - - - - - - - - - - - - - - - - - - - - - - - - - - - - - - - - - -
// Server-sent events
// - - - - - - - - - - - - - - - - - - - - - - - - - - - - - - - - - - - - - - - - - - - - - - - - - - - - - - - - - - -

/// The field prefix of every line of an event.
pub open spec fn data_prefix() -> Seq<char> {
    seq!['d', 'a', 't', 'a', ':', ' ']
}

/// `s` with every line break followed by a fresh `data: ` prefix.
pub open spec fn continued_lines(s: Seq<char>) -> Seq<char>
    decreases s.len(),
{
    if s.len() == 0 {
        Seq::empty()
    } else if s.last() == '\n' {
        continued_lines(s.drop_last()) + seq!['\n'] + data_prefix()
    } else {
        continued_lines(s.drop_last()).push(s.last())
    }
}

/// The event that carries `content`: each line (split at `\n`) as its own `data: ` field ending in `\n`, and a blank
/// line that ends the event.
pub open spec fn sse_text(content: Seq<char>) -> Seq<char> {
    data_prefix() + continued_lines(content) + seq!['\n', '\n']
}

/// Encodes `content` as a single server sent event (SSE) message.
/// Each line becomes its own `data:` field (the spec joins them back with `\n`), and the leading space after `data:` is
/// the optional separator the client strips — so the file's own indentation is preserved.
pub fn sse_event(content: &str) -> (r: String)
    ensures
        r@ == sse_text(content@),
{
    let mut out = String::new();
    push_prefix(&mut out);
    let n = content.unicode_len();
    let mut i: usize = 0;
    while i < n
        invariant
            n == content@.len(),
            i <= n,
            out@ == data_prefix() + continued_lines(content@.take(i as int)),
        decreases n - i,
    {
        let c = content.get_char(i);
        if c == '\n' {
            push_char(&mut out, '\n');
            push_prefix(&mut out);
        } else {
            push_char(&mut out, c);
        }
        proof {
            let t = content@.take(i + 1);
            assert(t.drop_last() =~= content@.take(i as int));
            assert(out@ =~= data_prefix() + continued_lines(t));
        }
        i += 1;
    }
    push_char(&mut out, '\n');
    push_char(&mut out, '\n');
    proof {
        assert(content@.take(n as int) =~= content@);
        assert(out@ =~= sse_text(content@));
    }
    out
}

/// The lines of `s`: the pieces between line breaks, one more than there are breaks.
pub open spec fn split_lines(s: Seq<char>) -> Seq<Seq<char>>
    decreases s.len(),
{
    if s.len() == 0 {
        seq![Seq::empty()]
    } else {
        let ls = split_lines(s.drop_last());
        if s.last() == '\n' {
            ls.push(Seq::empty())
        } else {
            ls.update(ls.len() - 1, ls.last().push(s.last()))
        }
    }
}

/// One `data: ` field per line, each ending in a line break.
pub open spec fn data_fields(lines: Seq<Seq<char>>) -> Seq<char>
    decreases lines.len(),
{
    if lines.len() == 0 {
        Seq::empty()
    } else {
        data_fields(lines.drop_last()) + data_prefix() + lines.last() + seq!['\n']
    }
}

/// Lines joined back together with line breaks between them, as a client reassembles the data of an event.
pub open spec fn join_lines(lines: Seq<Seq<char>>) -> Seq<char>
    decreases lines.len(),
{
    if lines.len() <= 1 {
        if lines.len() == 1 {
            lines[0]
        } else {
            Seq::empty()
        }
    } else {
        join_lines(lines.drop_last()) + seq!['\n'] + lines.last()
    }
}

/// There is always at least one line.
proof fn lemma_split_lines_nonempty(s: Seq<char>)
    ensures
        split_lines(s).len() >= 1,
    decreases s.len(),
{
    if s.len() > 0 {
        lemma_split_lines_nonempty(s.drop_last());
    }
}

/// Each line of the content becomes its own `data: ` field, and a blank line ends the event.
pub proof fn lemma_event_fields(content: Seq<char>)
    ensures
        sse_text(content) == data_fields(split_lines(content)) + seq!['\n'],
    decreases content.len(),
{
    lemma_fields_of(content);
    assert(sse_text(content) =~= data_prefix() + continued_lines(content) + seq!['\n'] + seq!['\n']);
}

/// The fields of the lines of `s` are the prefixed, continued text of `s` with a final line break.
proof fn lemma_fields_of(s: Seq<char>)
    ensures
        data_fields(split_lines(s)) == data_prefix() + continued_lines(s) + seq!['\n'],
    decreases s.len(),
{
    if s.len() == 0 {
        let ls = split_lines(s);
        assert(ls == seq![Seq::<char>::empty()]);
        assert(ls.drop_last() =~= Seq::<Seq<char>>::empty());
        assert(data_fields(Seq::<Seq<char>>::empty()) == Seq::<char>::empty());
        assert(data_fields(ls) == data_fields(ls.drop_last()) + data_prefix() + ls.last() + seq!['\n']);
        assert(data_fields(ls) =~= data_prefix() + continued_lines(s) + seq!['\n']);
    } else {
        let t = s.drop_last();
        lemma_fields_of(t);
        lemma_split_lines_nonempty(t);
        let ls = split_lines(t);
        if s.last() == '\n' {
            assert(split_lines(s).drop_last() =~= ls);
            assert(data_fields(split_lines(s)) =~= data_prefix() + continued_lines(s) + seq!['\n']);
        } else {
            let c = s.last();
            let u = ls.update(ls.len() - 1, ls.last().push(c));
            assert(u.drop_last() =~= ls.drop_last());
            let x = data_fields(ls.drop_last()) + data_prefix();
            let p = data_prefix() + continued_lines(t);
            assert(data_fields(ls) =~= x + ls.last() + seq!['\n']);
            assert(x + ls.last() + seq!['\n'] == p + seq!['\n']);
            assert((x + ls.last() + seq!['\n']).drop_last() =~= x + ls.last());
            assert((p + seq!['\n']).drop_last() =~= p);
            assert(x + ls.last() == p);
            assert(u.last() == ls.last().push(c));
            assert(data_fields(u) =~= x + u.last() + seq!['\n']);
            assert(continued_lines(s) == continued_lines(t).push(c));
            assert(x + ls.last().push(c) =~= p.push(c));
            assert(data_fields(u) =~= data_prefix() + continued_lines(s) + seq!['\n']);
        }
    }
}

/// Joining the lines of an event's fields with line breaks gives back the content exactly, indentation and empty lines
/// included.
pub proof fn lemma_lines_rejoin(content: Seq<char>)
    ensures
        join_lines(split_lines(content)) == content,
    decreases content.len(),
{
    if content.len() > 0 {
        let t = content.drop_last();
        lemma_lines_rejoin(t);
        lemma_split_lines_nonempty(t);
        let ls = split_lines(t);
        if content.last() == '\n' {
            assert(split_lines(content).drop_last() =~= ls);
            assert(join_lines(split_lines(content)) =~= content);
        } else {
            let u = ls.update(ls.len() - 1, ls.last().push(content.last()));
            if ls.len() == 1 {
                assert(u.len() == 1);
                assert(u[0] == ls[0].push(content.last()));
                assert(join_lines(ls) == ls[0]);
                assert(join_lines(u) == u[0]);
                assert(content =~= t.push(content.last()));
                assert(join_lines(u) =~= content);
            } else {
                let c = content.last();
                assert(u.drop_last() =~= ls.drop_last());
                let y = join_lines(ls.drop_last()) + seq!['\n'];
                assert(join_lines(ls) == y + ls.last());
                assert(y + ls.last() == t);
                assert(u.last() == ls.last().push(c));
                assert(join_lines(u) == y + u.last());
                assert(y + ls.last().push(c) =~= t.push(c));
                assert(content =~= t.push(c));
                assert(join_lines(u) =~= content);
            }
        }
    }
}

/// Appends `data: `.
fn push_prefix(out: &mut String)
    ensures
        final(out)@ == old(out)@ + data_prefix(),
{
    push_char(out, 'd');
    push_char(out, 'a');
    push_char(out, 't');
    push_char(out, 'a');
    push_char(out, ':');
    push_char(out, ' ');
    proof {
        assert(out@ =~= old(out)@ + data_prefix());
    }
}

// - - - - - - - - - - - - - - - - - - - - - - - - - - - - - - - - - - - - - - - - - - - - - - - - - - - - - - - - - - -
// Change detection
// - - - - - - - - - - - - - - - - - - - - - - - - - - - - - - - - - - - - - - - - - - - - - - - - - - - - - - - - - - -

/// The contents last broadcast for each `.hv` file: a list of `(file, contents)` records. Recording a file again
/// replaces its record in place; were a file listed twice, its later record would count.
pub struct Snapshot {
    pub entries: Vec<(String, String)>,
}

/// The map of file names to contents that a list of records denotes.
pub open spec fn snapshot_map(s: Seq<(String, String)>) -> Map<Seq<char>, Seq<char>>
    decreases s.len(),
{
    if s.len() == 0 {
        Map::empty()
    } else {
        snapshot_map(s.drop_last()).insert(s.last().0@, s.last().1@)
    }
}

impl View for Snapshot {
    type V = Map<Seq<char>, Seq<char>>;

    open spec fn view(&self) -> Map<Seq<char>, Seq<char>> {
        snapshot_map(self.entries@)
    }
}

/// Records after position `k` that are not about `name` leave its contents unchanged.
proof fn lemma_snapshot_suffix(s: Seq<(String, String)>, k: int, name: Seq<char>)
    requires
        0 <= k <= s.len(),
        forall|j: int| k <= j < s.len() ==> (#[trigger] s[j]).0@ != name,
    ensures
        snapshot_map(s).contains_key(name) == snapshot_map(s.take(k)).contains_key(name),
        snapshot_map(s).contains_key(name) ==> snapshot_map(s)[name] == snapshot_map(s.take(k))[name],
    decreases s.len(),
{
    if k < s.len() {
        let t = s.drop_last();
        assert forall|j: int| k <= j < t.len() implies (#[trigger] t[j]).0@ != name by {
            assert(t[j] == s[j]);
        }
        lemma_snapshot_suffix(t, k, name);
        assert(t.take(k) =~= s.take(k));
    } else {
        assert(s.take(k) =~= s);
    }
}

/// Replacing the last record of a file by a new record of that file changes the file's contents and nothing else.
proof fn lemma_snapshot_replace(s: Seq<(String, String)>, k: int, record: (String, String))
    requires
        0 <= k < s.len(),
        s[k].0@ == record.0@,
        forall|j: int| k < j < s.len() ==> (#[trigger] s[j]).0@ != record.0@,
    ensures
        snapshot_map(s.update(k, record)) == snapshot_map(s).insert(record.0@, record.1@),
    decreases s.len(),
{
    let t = s.drop_last();
    if k == s.len() - 1 {
        assert(s.update(k, record).drop_last() =~= t);
        assert(snapshot_map(s.update(k, record)) =~= snapshot_map(s).insert(record.0@, record.1@));
    } else {
        assert forall|j: int| k < j < t.len() implies (#[trigger] t[j]).0@ != record.0@ by {
            assert(t[j] == s[j]);
        }
        lemma_snapshot_replace(t, k, record);
        assert(s.update(k, record).drop_last() =~= t.update(k, record));
        assert(s.update(k, record).last() == s.last());
        assert(snapshot_map(s.update(k, record)) =~= snapshot_map(s).insert(record.0@, record.1@));
    }
}

impl Snapshot {
    /// A snapshot of no files.
    pub fn new() -> (r: Snapshot)
        ensures
            r@ == Map::<Seq<char>, Seq<char>>::empty(),
    {
        Snapshot { entries: Vec::new() }
    }

    /// Records `contents` as the last broadcast contents of `file`.
    pub fn insert(&mut self, file: String, contents: String)
        ensures
            final(self)@ == old(self)@.insert(file@, contents@),
    {
        let mut i = self.entries.len();
        while i > 0
            invariant
                i <= self.entries@.len(),
                self.entries@ == old(self).entries@,
                forall|j: int| i <= j < self.entries@.len() ==> (#[trigger] self.entries@[j]).0@ != file@,
            decreases i,
        {
            if same_text(self.entries[i - 1].0.as_str(), file.as_str()) {
                let record = (file, contents);
                proof {
                    lemma_snapshot_replace(self.entries@, i - 1, record);
                }
                self.entries.set(i - 1, record);
                return;
            }
            i -= 1;
        }
        self.entries.push((file, contents));
        proof {
            assert(self.entries@.drop_last() =~= old(self).entries@);
        }
    }

    /// The last broadcast contents of `file`.
    pub fn get(&self, file: &str) -> (r: Option<&String>)
        ensures
            r matches Some(c) ==> self@.contains_key(file@) && self@[file@] == c@,
            r is None ==> !self@.contains_key(file@),
    {
        let mut i = self.entries.len();
        while i > 0
            invariant
                i <= self.entries@.len(),
                forall|j: int| i <= j < self.entries@.len() ==> (#[trigger] self.entries@[j]).0@ != file@,
            decreases i,
        {
            if same_text(self.entries[i - 1].0.as_str(), file) {
                proof {
                    let s = self.entries@;
                    lemma_snapshot_suffix(s, i as int, file@);
                    assert(s.take(i as int).drop_last() =~= s.take(i - 1));
                }
                return Some(&self.entries[i - 1].1);
            }
            i -= 1;
        }
        proof {
            lemma_snapshot_suffix(self.entries@, 0, file@);
        }
        None
    }
}

/// The model of a list of `(file, contents)` pairs.
pub open spec fn files_view(s: Seq<(String, String)>) -> Seq<(Seq<char>, Seq<char>)> {
    s.map_values(|p: (String, String)| (p.0@, p.1@))
}

/// Whether `contents` differs from what `last` holds for `file` (a file never broadcast always differs).
pub open spec fn differs(last: Map<Seq<char>, Seq<char>>, file: Seq<char>, contents: Seq<char>) -> bool {
    !(last.contains_key(file) && last[file] == contents)
}

/// Going through a scan in order: the snapshot after recording every file whose contents differ from the snapshot so
/// far, and the list of those files with their new contents.
pub open spec fn sync(last: Map<Seq<char>, Seq<char>>, scan: Seq<(Seq<char>, Seq<char>)>) -> (
    Map<Seq<char>, Seq<char>>,
    Seq<(Seq<char>, Seq<char>)>,
)
    decreases scan.len(),
{
    if scan.len() == 0 {
        (last, Seq::empty())
    } else {
        let (before, sent) = sync(last, scan.drop_last());
        let (file, contents) = scan.last();
        if differs(before, file, contents) {
            (before.insert(file, contents), sent.push((file, contents)))
        } else {
            (before, sent)
        }
    }
}

/// After a file-system event: compares a fresh scan of the `.hv` files with what was last broadcast, records each file
/// whose contents differ, and returns those files with their new contents, to be broadcast in scan order. Duplicate
/// events for unchanged files therefore broadcast nothing.
pub fn changed_files(last: &mut Snapshot, scan: &Vec<(String, String)>) -> (r: Vec<(String, String)>)
    ensures
        final(last)@ == sync(old(last)@, files_view(scan@)).0,
        files_view(r@) == sync(old(last)@, files_view(scan@)).1,
{
    let ghost start = last@;
    let mut out: Vec<(String, String)> = Vec::new();
    let mut i: usize = 0;
    while i < scan.len()
        invariant
            i <= scan@.len(),
            last@ == sync(start, files_view(scan@.take(i as int))).0,
            files_view(out@) == sync(start, files_view(scan@.take(i as int))).1,
        decreases scan.len() - i,
    {
        let file = &scan[i].0;
        let contents = &scan[i].1;
        let same = match last.get(file.as_str()) {
            Some(c) => same_text(c.as_str(), contents.as_str()),
            None => false,
        };
        proof {
            let t = files_view(scan@.take(i + 1));
            assert(t.drop_last() =~= files_view(scan@.take(i as int)));
            assert(t.last() == (file@, contents@));
        }
        if !same {
            let ghost before = out@;
            last.insert(file.clone(), contents.clone());
            out.push((file.clone(), contents.clone()));
            proof {
                assert(files_view(out@) =~= files_view(before).push((file@, contents@)));
            }
        }
        i += 1;
    }
    proof {
        assert(scan@.take(i as int) =~= scan@);
    }
    out
}

/// Whether no file name occurs twice in a scan.
pub open spec fn distinct_files(scan: Seq<(Seq<char>, Seq<char>)>) -> bool {
    forall|a: int, b: int| 0 <= a < b < scan.len() ==> (#[trigger] scan[a]).0 != (#[trigger] scan[b]).0
}

/// Whether a snapshot holds, for every file of a scan, the contents the scan found.
pub open spec fn agrees(last: Map<Seq<char>, Seq<char>>, scan: Seq<(Seq<char>, Seq<char>)>) -> bool {
    forall|q: int| 0 <= q < scan.len() ==> last.contains_key((#[trigger] scan[q]).0) && last[scan[q].0] == scan[q].1
}

/// After a scan is recorded, the snapshot holds every scanned file's contents.
pub proof fn lemma_sync_records_scan(last: Map<Seq<char>, Seq<char>>, scan: Seq<(Seq<char>, Seq<char>)>)
    requires
        distinct_files(scan),
    ensures
        agrees(sync(last, scan).0, scan),
    decreases scan.len(),
{
    if scan.len() > 0 {
        let t = scan.drop_last();
        assert forall|a: int, b: int| 0 <= a < b < t.len() implies (#[trigger] t[a]).0 != (#[trigger] t[b]).0 by {
            assert(t[a] == scan[a] && t[b] == scan[b]);
        }
        lemma_sync_records_scan(last, t);
        let m = sync(last, scan).0;
        assert forall|q: int| 0 <= q < scan.len() implies m.contains_key((#[trigger] scan[q]).0) && m[scan[q].0]
            == scan[q].1 by {
            if q < scan.len() - 1 {
                assert(t[q] == scan[q]);
                assert(scan[q].0 != scan[scan.len() - 1].0);
            }
        }
    }
}

/// A snapshot that already holds a scan's contents broadcasts nothing for it and stays as it is.
proof fn lemma_sync_agreeing(last: Map<Seq<char>, Seq<char>>, scan: Seq<(Seq<char>, Seq<char>)>)
    requires
        agrees(last, scan),
    ensures
        sync(last, scan).0 == last,
        sync(last, scan).1 == Seq::<(Seq<char>, Seq<char>)>::empty(),
    decreases scan.len(),
{
    if scan.len() > 0 {
        let t = scan.drop_last();
        assert forall|q: int| 0 <= q < t.len() implies last.contains_key((#[trigger] t[q]).0) && last[t[q].0]
            == t[q].1 by {
            assert(t[q] == scan[q]);
        }
        lemma_sync_agreeing(last, t);
        assert(last.contains_key(scan[scan.len() - 1].0));
    }
}

/// Duplicate events broadcast nothing: once a scan is recorded, the same scan again changes nothing and sends nothing.
pub proof fn lemma_sync_settles(last: Map<Seq<char>, Seq<char>>, scan: Seq<(Seq<char>, Seq<char>)>)
    requires
        distinct_files(scan),
    ensures
        sync(sync(last, scan).0, scan).0 == sync(last, scan).0,
        sync(sync(last, scan).0, scan).1 == Seq::<(Seq<char>, Seq<char>)>::empty(),
{
    lemma_sync_records_scan(last, scan);
    lemma_sync_agreeing(sync(last, scan).0, scan);
}

// - - - - - - - - - - - - - - - - - - - - - - - - - - - - - - - - - - - - - - - - - - - - - - - - - - - - - - - - - - -
// Port
// - - - - - - - - - - - - - - - - - - - - - - - - - - - - - - - - - - - - - - - - - - - - - - - - - - - - - - - - - - -

/// The port the server listens on when none is configured.
pub const DEFAULT_PORT: u16 = 8000;

/// Whether `c` is an ASCII decimal digit.
pub open spec fn is_digit(c: char) -> bool {
    '0' <= c <= '9'
}

/// The number that a string of decimal digits denotes.
pub open spec fn decimal_value(s: Seq<char>) -> int
    decreases s.len(),
{
    if s.len() == 0 {
        0
    } else {
        decimal_value(s.drop_last()) * 10 + (s.last() as int - '0' as int)
    }
}

/// The digits of a port number: the text without one leading `+`.
pub open spec fn port_digits(s: Seq<char>) -> Seq<char> {
    if s.len() > 0 && s[0] == '+' {
        s.drop_first()
    } else {
        s
    }
}

/// The port a setting names, read as an unsigned 16-bit decimal number: an optional `+`, then one or more digits, of
/// value at most 65535.
pub open spec fn parsed_port(s: Seq<char>) -> Option<u16> {
    let d = port_digits(s);
    if d.len() > 0 && (forall|i: int| 0 <= i < d.len() ==> is_digit(#[trigger] d[i])) && decimal_value(d) <= 65535 {
        Some(decimal_value(d) as u16)
    } else {
        None
    }
}

/// A prefix of a string of digits denotes no more than the whole string.
proof fn lemma_decimal_prefix(s: Seq<char>, k: int)
    requires
        0 <= k <= s.len(),
        forall|i: int| 0 <= i < s.len() ==> is_digit(#[trigger] s[i]),
    ensures
        0 <= decimal_value(s.take(k)) <= decimal_value(s),
    decreases s.len(),
{
    if s.len() > 0 {
        let t = s.drop_last();
        assert forall|i: int| 0 <= i < t.len() implies is_digit(#[trigger] t[i]) by {
            assert(t[i] == s[i]);
        }
        assert(is_digit(s[s.len() - 1]));
        if k == s.len() {
            assert(s.take(k) =~= s);
            lemma_decimal_prefix(t, t.len() as int);
            assert(t.take(t.len() as int) =~= t);
        } else {
            lemma_decimal_prefix(t, k);
            assert(t.take(k) =~= s.take(k));
            lemma_decimal_prefix(t, t.len() as int);
            assert(t.take(t.len() as int) =~= t);
        }
    } else {
        assert(s.take(k) =~= s);
    }
}

/// The port to listen on: the `PORT` setting when it reads as a port number, otherwise the default, 8000.
pub fn port_setting(setting: Option<&str>) -> (r: u16)
    ensures
        r == (match setting {
            Some(s) => match parsed_port(s@) {
                Some(p) => p,
                None => DEFAULT_PORT,
            },
            None => DEFAULT_PORT,
        }),
{
    match setting {
        Some(s) => match parse_port(s) {
            Some(p) => p,
            None => DEFAULT_PORT,
        },
        None => DEFAULT_PORT,
    }
}

/// Reads a port number (see [`parsed_port`]).
fn parse_port(s: &str) -> (r: Option<u16>)
    ensures
        r == parsed_port(s@),
{
    let n = s.unicode_len();
    let mut i: usize = 0;
    if n > 0 && s.get_char(0) == '+' {
        i = 1;
    }
    let ghost d = port_digits(s@);
    proof {
        assert(d =~= s@.skip(i as int));
    }
    if i == n {
        return None;
    }
    let mut value: u32 = 0;
    while i < n
        invariant
            n == s@.len(),
            d == port_digits(s@),
            d =~= s@.skip(n - d.len()),
            n - d.len() <= i <= n,
            d.len() > 0,
            forall|k: int| 0 <= k < i - (n - d.len()) ==> is_digit(#[trigger] d[k]),
            value == decimal_value(d.take(i - (n - d.len()))),
            value <= 65535,
        decreases n - i,
    {
        let ghost j: int = i - (n - d.len());
        let c = s.get_char(i);
        assert(c == d[j]);
        if !('0' <= c && c <= '9') {
            return None;
        }
        proof {
            assert(d.take(j + 1).drop_last() =~= d.take(j));
        }
        value = value * 10 + (c as u32 - '0' as u32);
        if value > 65535 {
            proof {
                let k = j + 1;
                if forall|q: int| 0 <= q < d.len() ==> is_digit(#[trigger] d[q]) {
                    lemma_decimal_prefix(d, k);
                }
            }
            return None;
        }
        i += 1;
    }
    proof {
        assert(d.take(d.len() as int) =~= d);
    }
    Some(value as u16)
}

} // verus!
