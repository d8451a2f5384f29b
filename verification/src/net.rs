use vstd::prelude::*;
use vstd::utf8::*;

verus! {

/// Line terminator of the protocol; an empty line ends a packet.
pub const NEWLINE: u8 = 0x0A;

/// Separator between a field's name and its value.
pub const COLON: u8 = 0x3A;

/// Fields given as (name, value) character sequences, in order.
pub type FieldSeq = Seq<(Seq<char>, Seq<char>)>;

/// The map that results from setting each field in turn: a later field with
/// the same name replaces an earlier one.
pub open spec fn fields_map(fields: FieldSeq) -> Map<Seq<char>, Seq<char>>
    decreases fields.len(),
{
    if fields.len() == 0 {
        Map::empty()
    } else {
        fields_map(fields.drop_last()).insert(fields.last().0, fields.last().1)
    }
}

/// No name occurs twice.
pub open spec fn distinct_names(fields: FieldSeq) -> bool {
    forall|i: int, j: int|
        0 <= i < fields.len() && 0 <= j < fields.len() && i != j ==> fields[i].0 != fields[j].0
}

/// Where names are distinct, the map holds exactly the fields' names, each
/// with its own value.
pub proof fn lemma_fields_map_lookup(fields: FieldSeq)
    requires
        distinct_names(fields),
    ensures
        forall|x: Seq<char>|
            #![trigger fields_map(fields).dom().contains(x)]
            fields_map(fields).dom().contains(x) <==> exists|i: int|
                0 <= i < fields.len() && fields[i].0 == x,
        forall|i: int|
            #![trigger fields[i]]
            0 <= i < fields.len() ==> fields_map(fields).dom().contains(fields[i].0)
                && fields_map(fields)[fields[i].0] == fields[i].1,
    decreases fields.len(),
{
    if fields.len() > 0 {
        let init = fields.drop_last();
        assert(distinct_names(init));
        lemma_fields_map_lookup(init);
        assert forall|x: Seq<char>|
            #![trigger fields_map(fields).dom().contains(x)]
            fields_map(fields).dom().contains(x) <==> exists|i: int|
                0 <= i < fields.len() && fields[i].0 == x by {
            if fields_map(fields).dom().contains(x) {
                if x == fields.last().0 {
                    assert(fields[fields.len() - 1].0 == x);
                } else {
                    assert(fields_map(init).dom().contains(x));
                    let i = choose|i: int| 0 <= i < init.len() && init[i].0 == x;
                    assert(init[i] == fields[i]);
                }
            }
            if exists|i: int| 0 <= i < fields.len() && fields[i].0 == x {
                let i = choose|i: int| 0 <= i < fields.len() && fields[i].0 == x;
                if i < init.len() {
                    assert(init[i] == fields[i]);
                    assert(init[i].0 == x);
                }
            }
        }
        assert forall|i: int|
            #![trigger fields[i]]
            0 <= i < fields.len() implies fields_map(fields).dom().contains(fields[i].0)
                && fields_map(fields)[fields[i].0] == fields[i].1 by {
            if i < init.len() {
                assert(init[i] == fields[i]);
                assert(fields[i].0 != fields.last().0);
            }
        }
    }
}

/// A packet: named text fields, each name at most once.
pub struct Packet {
    entries: Vec<(String, String)>,
}

impl Packet {
    /// The fields in the order in which their names were first set.
    pub closed spec fn fields(self) -> FieldSeq {
        self.entries@.map_values(|e: (String, String)| (e.0@, e.1@))
    }

    #[verifier::type_invariant]
    spec fn names_distinct(self) -> bool {
        distinct_names(self.fields())
    }
}

impl View for Packet {
    type V = Map<Seq<char>, Seq<char>>;

    open spec fn view(&self) -> Map<Seq<char>, Seq<char>> {
        fields_map(self.fields())
    }
}

impl Packet {
    /// A packet without fields.
    pub fn new() -> (p: Self)
        ensures
            p.fields() == Seq::<(Seq<char>, Seq<char>)>::empty(),
            p@ == Map::<Seq<char>, Seq<char>>::empty(),
    {
        let p = Packet { entries: Vec::new() };
        assert(p.fields() =~= Seq::<(Seq<char>, Seq<char>)>::empty());
        p
    }

    /// The number of fields.
    pub fn len(&self) -> (n: usize)
        ensures
            n == self.fields().len(),
            n == self@.len(),
    {
        proof {
            use_type_invariant(self);
            lemma_fields_map_lookup(self.fields());
            lemma_fields_map_len(self.fields());
        }
        self.entries.len()
    }

    /// The fields, as (name, value) pairs in the packet's order.
    pub fn into_fields(self) -> (v: Vec<(String, String)>)
        ensures
            v@.map_values(|e: (String, String)| (e.0@, e.1@)) == self.fields(),
    {
        self.entries
    }

    /// Position of the field named `name`, if there is one.
    fn position(&self, name: &str) -> (r: Option<usize>)
        ensures
            r matches Some(i) ==> i < self.fields().len() && self.fields()[i as int].0 == name@,
            r is None ==> forall|i: int|
                0 <= i < self.fields().len() ==> #[trigger] self.fields()[i].0 != name@,
    {
        let mut i: usize = 0;
        while i < self.entries.len()
            invariant
                i <= self.entries.len(),
                forall|j: int| 0 <= j < i ==> #[trigger] self.fields()[j].0 != name@,
            decreases self.entries.len() - i,
        {
            if crate::text::same_text(self.entries[i].0.as_str(), name) {
                return Some(i);
            }
            i = i + 1;
        }
        None
    }

    /// The value of the field named `name`.
    pub fn get(&self, name: &str) -> (r: Option<&String>)
        ensures
            r is Some <==> self@.dom().contains(name@),
            r matches Some(v) ==> v@ == self@[name@],
    {
        proof {
            use_type_invariant(self);
            lemma_fields_map_lookup(self.fields());
        }
        match self.position(name) {
            Some(i) => Some(&self.entries[i].1),
            None => None,
        }
    }

    /// Sets the field `name` to `value`: replaces its value where the name is
    /// already there, and adds it at the end where it is not.
    pub fn insert(&mut self, name: String, value: String)
        ensures
            final(self).fields() == set_field(old(self).fields(), name@, value@),
            final(self)@ == old(self)@.insert(name@, value@),
    {
        proof {
            use_type_invariant(&*self);
        }
        let ghost old_fields = self.fields();
        let pos = self.position(name.as_str());
        let mut entries: Vec<(String, String)> = Vec::new();
        std::mem::swap(&mut entries, &mut self.entries);
        let ghost new_entry = (name@, value@);
        match pos {
            Some(i) => {
                entries.set(i, (name, value));
            },
            None => {
                entries.push((name, value));
            },
        }
        let ghost new_fields = entries@.map_values(|e: (String, String)| (e.0@, e.1@));
        proof {
            match pos {
                Some(i) => {
                    assert(new_fields =~= old_fields.update(i as int, new_entry));
                    assert(old_fields[i as int].0 == new_entry.0);
                    lemma_set_existing(old_fields, i as int, new_entry.1);
                },
                None => {
                    assert(new_fields =~= old_fields.push(new_entry));
                    lemma_set_new(old_fields, new_entry.0, new_entry.1);
                },
            }
        }
        self.entries = entries;
    }
}

/// The fields after setting `name` to `value`: the value replaces that of
/// the field of that name, or a new field is added at the end.
pub open spec fn set_field(fields: FieldSeq, name: Seq<char>, value: Seq<char>) -> FieldSeq {
    if exists|i: int| 0 <= i < fields.len() && fields[i].0 == name {
        fields.update(choose|i: int| 0 <= i < fields.len() && fields[i].0 == name, (name, value))
    } else {
        fields.push((name, value))
    }
}

proof fn lemma_set_existing(fields: FieldSeq, i: int, value: Seq<char>)
    requires
        distinct_names(fields),
        0 <= i < fields.len(),
    ensures
        set_field(fields, fields[i].0, value) == fields.update(i, (fields[i].0, value)),
        distinct_names(fields.update(i, (fields[i].0, value))),
        fields_map(fields.update(i, (fields[i].0, value))) == fields_map(fields).insert(
            fields[i].0,
            value,
        ),
{
    let name = fields[i].0;
    let new = fields.update(i, (name, value));
    let k = choose|k: int| 0 <= k < fields.len() && fields[k].0 == name;
    assert(k == i);
    assert(distinct_names(new)) by {
        assert forall|a: int, b: int|
            0 <= a < new.len() && 0 <= b < new.len() && a != b implies new[a].0 != new[b].0 by {
            assert(new[a].0 == fields[a].0);
            assert(new[b].0 == fields[b].0);
        }
    }
    lemma_fields_map_lookup(fields);
    lemma_fields_map_lookup(new);
    let m1 = fields_map(new);
    let m2 = fields_map(fields).insert(name, value);
    assert forall|x: Seq<char>| #[trigger] m1.dom().contains(x) <==> m2.dom().contains(x) by {
        if m1.dom().contains(x) {
            let j = choose|j: int| 0 <= j < new.len() && new[j].0 == x;
            if j != i {
                assert(new[j] == fields[j]);
            }
        }
        if m2.dom().contains(x) && x != name {
            let j = choose|j: int| 0 <= j < fields.len() && fields[j].0 == x;
            assert(new[j] == fields[j]);
        }
        if x == name {
            assert(new[i].0 == name);
        }
    }
    assert forall|x: Seq<char>| #[trigger] m1.dom().contains(x) implies m1[x] == m2[x] by {
        let j = choose|j: int| 0 <= j < new.len() && new[j].0 == x;
        if j != i {
            assert(new[j] == fields[j]);
        } else {
            assert(new[i] == (name, value));
        }
    }
    assert(m1 =~= m2);
}

proof fn lemma_set_new(fields: FieldSeq, name: Seq<char>, value: Seq<char>)
    requires
        distinct_names(fields),
        forall|i: int| 0 <= i < fields.len() ==> #[trigger] fields[i].0 != name,
    ensures
        set_field(fields, name, value) == fields.push((name, value)),
        distinct_names(fields.push((name, value))),
        fields_map(fields.push((name, value))) == fields_map(fields).insert(name, value),
{
    let new = fields.push((name, value));
    assert(new.drop_last() =~= fields);
    assert(distinct_names(new)) by {
        assert forall|a: int, b: int|
            0 <= a < new.len() && 0 <= b < new.len() && a != b implies new[a].0 != new[b].0 by {
            if a < fields.len() {
                assert(new[a] == fields[a]);
            }
            if b < fields.len() {
                assert(new[b] == fields[b]);
            }
        }
    }
}

/// The number of entries of a map built from distinct names is the number of fields.
pub proof fn lemma_fields_map_len(fields: FieldSeq)
    requires
        distinct_names(fields),
    ensures
        fields_map(fields).len() == fields.len(),
        fields_map(fields).dom().finite(),
    decreases fields.len(),
{
    if fields.len() > 0 {
        let init = fields.drop_last();
        assert(distinct_names(init));
        lemma_fields_map_len(init);
        lemma_fields_map_lookup(init);
        assert(!fields_map(init).dom().contains(fields.last().0)) by {
            if fields_map(init).dom().contains(fields.last().0) {
                let i = choose|i: int| 0 <= i < init.len() && init[i].0 == fields.last().0;
                assert(fields[i].0 == fields[fields.len() - 1].0);
            }
        }
    }
}


/// The bytes after the last newline of `bytes`: the line that is still being
/// read.
pub open spec fn pending_line(bytes: Seq<u8>) -> Seq<u8>
    decreases bytes.len(),
{
    if bytes.len() == 0 {
        Seq::empty()
    } else if bytes.last() == NEWLINE {
        Seq::empty()
    } else {
        pending_line(bytes.drop_last()).push(bytes.last())
    }
}

/// The lines of `bytes` that a newline ends, in order, each without its
/// newline. Bytes after the last newline form no line.
pub open spec fn complete_lines(bytes: Seq<u8>) -> Seq<Seq<u8>>
    decreases bytes.len(),
{
    if bytes.len() == 0 {
        Seq::empty()
    } else if bytes.last() == NEWLINE {
        complete_lines(bytes.drop_last()).push(pending_line(bytes.drop_last()))
    } else {
        complete_lines(bytes.drop_last())
    }
}

/// `i` is the position of the first colon of `line`.
pub open spec fn is_first_colon(line: Seq<u8>, i: int) -> bool {
    &&& 0 <= i < line.len()
    &&& line[i] == COLON
    &&& forall|j: int| 0 <= j < i ==> line[j] != COLON
}

/// The position of the first colon of a line that holds one.
pub open spec fn first_colon(line: Seq<u8>) -> int {
    choose|i: int| is_first_colon(line, i)
}

/// A field line's name: the bytes before its first colon.
pub open spec fn field_name(line: Seq<u8>) -> Seq<u8> {
    line.take(first_colon(line))
}

/// A field line's value: the bytes after its first colon.
pub open spec fn field_value(line: Seq<u8>) -> Seq<u8> {
    line.skip(first_colon(line) + 1)
}

/// The effect of one complete line on the fields read so far, as
/// `Some((fields, stopped))`:
/// a line without a colon is skipped; a line whose name is not UTF-8 stops
/// the reading (`stopped`), keeping what was read before it; a line whose
/// value is not UTF-8 has no outcome (`None`: the reader cannot go on);
/// any other line sets its field.
pub open spec fn read_line(fields: Map<Seq<char>, Seq<char>>, line: Seq<u8>) -> Option<
    (Map<Seq<char>, Seq<char>>, bool),
> {
    if !line.contains(COLON) {
        Some((fields, false))
    } else if !valid_utf8(field_name(line)) {
        Some((fields, true))
    } else if !valid_utf8(field_value(line)) {
        None
    } else {
        Some((fields.insert(decode_utf8(field_name(line)), decode_utf8(field_value(line))), false))
    }
}

/// The outcome of reading `lines` in order from no fields, until a line
/// stops the reading or has no outcome.
pub open spec fn read_lines(lines: Seq<Seq<u8>>) -> Option<(Map<Seq<char>, Seq<char>>, bool)>
    decreases lines.len(),
{
    if lines.len() == 0 {
        Some((Map::empty(), false))
    } else {
        match read_lines(lines.drop_last()) {
            None => None,
            Some((fields, true)) => Some((fields, true)),
            Some((fields, false)) => read_line(fields, lines.last()),
        }
    }
}

/// Reading the packet's lines reaches a value that is not UTF-8.
pub open spec fn parse_panics(bytes: Seq<u8>) -> bool {
    read_lines(complete_lines(bytes)) is None
}

/// The fields that the packet's lines set.
pub open spec fn parsed_fields(bytes: Seq<u8>) -> Map<Seq<char>, Seq<char>> {
    read_lines(complete_lines(bytes)).unwrap().0
}

/// Once the reading stopped, or cannot go on, more lines change nothing.
pub proof fn lemma_read_lines_settled(lines: Seq<Seq<u8>>, more: Seq<Seq<u8>>)
    requires
        lines.is_prefix_of(more),
        read_lines(lines) matches Some((_, stopped)) ==> stopped,
    ensures
        read_lines(more) == read_lines(lines),
    decreases more.len(),
{
    if more.len() > lines.len() {
        assert(lines.is_prefix_of(more.drop_last()));
        lemma_read_lines_settled(lines, more.drop_last());
    } else {
        assert(more =~= lines);
    }
}

/// The lines of a prefix of `bytes` are a prefix of the lines of `bytes`.
pub proof fn lemma_complete_lines_prefix(bytes: Seq<u8>, n: int)
    requires
        0 <= n <= bytes.len(),
    ensures
        complete_lines(bytes.take(n)).is_prefix_of(complete_lines(bytes)),
    decreases bytes.len(),
{
    if n == bytes.len() {
        assert(bytes.take(n) =~= bytes);
    } else {
        let init = bytes.drop_last();
        assert(bytes.take(n) =~= init.take(n));
        lemma_complete_lines_prefix(init, n);
    }
}

/// Position of the first colon of `line`, if it holds one.
fn find_colon(line: &Vec<u8>) -> (r: Option<usize>)
    ensures
        r matches Some(c) ==> is_first_colon(line@, c as int) && first_colon(line@) == c,
        r is None ==> !line@.contains(COLON),
{
    let mut i: usize = 0;
    while i < line.len()
        invariant
            i <= line.len(),
            forall|j: int| 0 <= j < i ==> line@[j] != COLON,
        decreases line.len() - i,
    {
        if line[i] == COLON {
            proof {
                assert(is_first_colon(line@, i as int));
                let k = first_colon(line@);
                assert(is_first_colon(line@, k));
                assert(k == i as int) by {
                    if k < i as int {
                        assert(line@[k] != COLON);
                    }
                    if k > i as int {
                        assert(line@[i as int] != COLON);
                    }
                }
            }
            return Some(i);
        }
        i = i + 1;
    }
    None
}

/// Reads the fields of `packet`; `None` exactly where reading reaches a
/// value that is not UTF-8.
fn read_fields(packet: &[u8]) -> (r: Option<Packet>)
    ensures
        r is None <==> parse_panics(packet@),
        r matches Some(p) ==> p@ == parsed_fields(packet@),
{
    let mut line: Vec<u8> = Vec::new();
    let mut fields = Packet::new();
    let mut i: usize = 0;
    assert(packet@.take(0) =~= Seq::<u8>::empty());
    while i < packet.len()
        invariant
            i <= packet.len(),
            line@ == pending_line(packet@.take(i as int)),
            read_lines(complete_lines(packet@.take(i as int))) == Some((fields@, false)),
        decreases packet.len() - i,
    {
        let element = packet[i];
        let ghost before = packet@.take(i as int);
        let ghost after = packet@.take(i + 1);
        assert(after.drop_last() =~= before);
        assert(after.last() == element);
        if element == NEWLINE {
            assert(complete_lines(after) == complete_lines(before).push(line@));
            assert(complete_lines(after).drop_last() =~= complete_lines(before));
            assert(read_lines(complete_lines(after)) == read_line(fields@, line@));
            proof {
                lemma_complete_lines_prefix(packet@, i + 1);
            }
            match find_colon(&line) {
                None => {
                    line = Vec::new();
                },
                Some(c) => {
                    assert(c < line.len());
                    let name_bytes = vstd::slice::slice_subrange(line.as_slice(), 0, c);
                    let value_bytes = vstd::slice::slice_subrange(
                        line.as_slice(),
                        c + 1,
                        line.len(),
                    );
                    assert(name_bytes@ =~= field_name(line@));
                    assert(value_bytes@ =~= field_value(line@));
                    let name = match crate::text::decode_text(name_bytes) {
                        Some(s) => s,
                        None => {
                            proof {
                                assert(packet@.take(packet@.len() as int) =~= packet@);
                                lemma_read_lines_settled(
                                    complete_lines(after),
                                    complete_lines(packet@),
                                );
                            }
                            return Some(fields);
                        },
                    };
                    let value = match crate::text::decode_text(value_bytes) {
                        Some(s) => s,
                        None => {
                            proof {
                                assert(packet@.take(packet@.len() as int) =~= packet@);
                                lemma_read_lines_settled(
                                    complete_lines(after),
                                    complete_lines(packet@),
                                );
                            }
                            return None;
                        },
                    };
                    fields.insert(name, value);
                    line = Vec::new();
                },
            }
        } else {
            line.push(element);
        }
        i = i + 1;
    }
    assert(packet@.take(packet@.len() as int) =~= packet@);
    Some(fields)
}

/// Reads the fields of a packet: each line that a newline ends and that
/// holds a colon sets the field named by the bytes before its first colon to
/// the bytes after it, both read as UTF-8; a later line with the same name
/// wins. Lines without a colon are skipped, bytes after the last newline are
/// ignored, and reading stops at the first line whose name is not UTF-8.
/// A line whose value is not UTF-8 has no meaning: such packets are refused
/// by the precondition (see `parse_would_panic`).
pub fn parse_packet(packet: &[u8]) -> (fields: Packet)
    requires
        !parse_panics(packet@),
    ensures
        fields@ == parsed_fields(packet@),
{
    match read_fields(packet) {
        Some(p) => p,
        None => {
            assert(false);
            Packet::new()
        },
    }
}

/// Whether reading `packet` reaches a field value that is not UTF-8, the
/// one input that `parse_packet` does not take.
pub fn parse_would_panic(packet: &[u8]) -> (r: bool)
    ensures
        r == parse_panics(packet@),
{
    read_fields(packet).is_none()
}


/// The first `n` bytes of `s` end with two newlines: an empty line closes
/// a packet there.
pub open spec fn ends_frame(s: Seq<u8>, n: int) -> bool {
    &&& 2 <= n <= s.len()
    &&& s[n - 2] == NEWLINE
    &&& s[n - 1] == NEWLINE
}

/// `n` is where the first packet of the stream `s` ends.
pub open spec fn is_frame_len(s: Seq<u8>, n: int) -> bool {
    &&& ends_frame(s, n)
    &&& forall|m: int| 0 <= m < n ==> !ends_frame(s, m)
}

/// The stream `s` holds a whole packet.
pub open spec fn has_frame(s: Seq<u8>) -> bool {
    exists|n: int| ends_frame(s, n)
}

/// No packet ends before the last byte of `s`.
pub open spec fn frame_free(s: Seq<u8>) -> bool {
    forall|m: int| 0 <= m < s.len() ==> !ends_frame(s, m)
}

/// The first packet of the stream `s` holds a value that is not UTF-8.
pub open spec fn frame_panics(s: Seq<u8>) -> bool {
    exists|n: int| is_frame_len(s, n) && parse_panics(s.take(n))
}

/// The stream ended before a packet was whole.
#[derive(Debug, PartialEq, Eq, Structural)]
pub enum PacketError {
    BrokenPipe,
}

/// Reads the first packet from the front of `stream`: the bytes up to and
/// including the first two newlines in a row, read as by `parse_packet`.
/// Returns the fields and the number of bytes that the packet takes, or
/// `BrokenPipe` when the stream ends before a packet is whole.
pub fn get_packet(stream: &[u8]) -> (r: Result<(Packet, usize), PacketError>)
    requires
        !frame_panics(stream@),
    ensures
        r is Err <==> !has_frame(stream@),
        r matches Ok((p, n)) ==> is_frame_len(stream@, n as int) && p@ == parsed_fields(
            stream@.take(n as int),
        ),
{
    let mut i: usize = 1;
    while i < stream.len()
        invariant
            1 <= i,
            !frame_panics(stream@),
            forall|m: int| 0 <= m <= i ==> !ends_frame(stream@, m),
        decreases stream.len() - i,
    {
        if stream[i - 1] == NEWLINE && stream[i] == NEWLINE {
            let n = i + 1;
            assert(is_frame_len(stream@, n as int));
            let frame = vstd::slice::slice_subrange(stream, 0, n);
            assert(frame@ =~= stream@.take(n as int));
            assert(!parse_panics(frame@)) by {
                if parse_panics(frame@) {
                    assert(is_frame_len(stream@, n as int) && parse_panics(
                        stream@.take(n as int),
                    ));
                }
            }
            let fields = parse_packet(frame);
            return Ok((fields, n));
        }
        i = i + 1;
    }
    assert(!has_frame(stream@)) by {
        if has_frame(stream@) {
            let n = choose|n: int| ends_frame(stream@, n);
            assert(n <= i);
        }
    }
    Err(PacketError::BrokenPipe)
}

/// Assembles a packet from a stream one byte at a time, for streams that
/// deliver their bytes as they come: it holds the bytes taken so far and is
/// complete once they end with two newlines.
pub struct PacketReader {
    bytes: Vec<u8>,
}

impl PacketReader {
    /// The bytes taken so far.
    pub closed spec fn received(self) -> Seq<u8> {
        self.bytes@
    }

    #[verifier::type_invariant]
    spec fn stops_at_first_frame(self) -> bool {
        frame_free(self.bytes@)
    }

    /// A reader that has taken nothing.
    pub fn new() -> (r: Self)
        ensures
            r.received() == Seq::<u8>::empty(),
            frame_free(r.received()),
    {
        PacketReader { bytes: Vec::new() }
    }

    /// Whether the bytes taken so far end with two newlines.
    pub fn is_complete(&self) -> (b: bool)
        ensures
            b == ends_frame(self.received(), self.received().len() as int),
            frame_free(self.received()),
    {
        proof {
            use_type_invariant(self);
        }
        let n = self.bytes.len();
        n >= 2 && self.bytes[n - 2] == NEWLINE && self.bytes[n - 1] == NEWLINE
    }

    /// Takes the next byte of an incomplete packet.
    pub fn push(&mut self, byte: u8)
        requires
            !ends_frame(old(self).received(), old(self).received().len() as int),
        ensures
            final(self).received() == old(self).received().push(byte),
            frame_free(final(self).received()),
    {
        proof {
            use_type_invariant(&*self);
        }
        let mut bytes: Vec<u8> = Vec::new();
        std::mem::swap(&mut bytes, &mut self.bytes);
        let ghost before = bytes@;
        bytes.push(byte);
        assert forall|m: int| 0 <= m < bytes@.len() implies !ends_frame(bytes@, m) by {
            if m < before.len() {
                assert(!ends_frame(before, m));
                if m >= 2 {
                    assert(bytes@[m - 2] == before[m - 2]);
                    assert(bytes@[m - 1] == before[m - 1]);
                }
            } else {
                assert(!ends_frame(before, before.len() as int));
                if m >= 2 {
                    assert(bytes@[m - 2] == before[m - 2]);
                    assert(bytes@[m - 1] == before[m - 1]);
                }
            }
        }
        self.bytes = bytes;
    }

    /// The bytes taken so far.
    pub fn into_bytes(self) -> (v: Vec<u8>)
        ensures
            v@ == self.received(),
            frame_free(v@),
    {
        proof {
            use_type_invariant(&self);
        }
        self.bytes
    }
}

/// A field as a line of the protocol: the name's UTF-8 bytes, a colon, and
/// the value's UTF-8 bytes.
pub open spec fn field_line(field: (Seq<char>, Seq<char>)) -> Seq<u8> {
    encode_utf8(field.0) + seq![COLON] + encode_utf8(field.1)
}

/// The bytes of the fields, each as its line and a newline, in order.
pub open spec fn encode_fields(fields: FieldSeq) -> Seq<u8>
    decreases fields.len(),
{
    if fields.len() == 0 {
        Seq::empty()
    } else {
        encode_fields(fields.drop_last()) + field_line(fields.last()).push(NEWLINE)
    }
}

/// The bytes of a packet: its fields, then an empty line.
pub open spec fn encode_packet(fields: FieldSeq) -> Seq<u8> {
    encode_fields(fields).push(NEWLINE)
}

/// The bytes that send `packet`: for each field, in the packet's order, the
/// name, a colon, the value and a newline; then one more newline.
pub fn send_packet(packet: &Packet) -> (bytes: Vec<u8>)
    ensures
        bytes@ == encode_packet(packet.fields()),
{
    let mut out: Vec<u8> = Vec::new();
    let n = packet.entries.len();
    let ghost fields = packet.fields();
    let mut i: usize = 0;
    assert(fields.take(0) =~= Seq::<(Seq<char>, Seq<char>)>::empty());
    while i < n
        invariant
            n == packet.entries.len(),
            fields == packet.fields(),
            i <= n,
            out@ == encode_fields(fields.take(i as int)),
        decreases n - i,
    {
        let name = &packet.entries[i].0;
        let value = &packet.entries[i].1;
        let mut name_bytes = vstd::slice::slice_to_vec(name.as_str().as_bytes());
        let mut value_bytes = vstd::slice::slice_to_vec(value.as_str().as_bytes());
        let ghost before = out@;
        out.append(&mut name_bytes);
        out.push(COLON);
        out.append(&mut value_bytes);
        out.push(NEWLINE);
        assert(fields.take(i + 1).drop_last() =~= fields.take(i as int));
        assert(fields[i as int] == (name@, value@));
        assert(out@ =~= before + field_line(fields[i as int]).push(NEWLINE));
        i = i + 1;
    }
    assert(fields.take(n as int) =~= fields);
    out.push(NEWLINE);
    out
}


/// A reader fed the first bytes of a stream one at a time is complete
/// exactly when it has taken the bytes of the stream's first packet, as
/// `get_packet` frames it; while it is incomplete, no packet of the stream
/// has ended yet.
pub proof fn lemma_reader_matches_framing(received: Seq<u8>, stream: Seq<u8>)
    requires
        frame_free(received),
        received.is_prefix_of(stream),
    ensures
        ends_frame(received, received.len() as int) <==> is_frame_len(
            stream,
            received.len() as int,
        ),
        !ends_frame(received, received.len() as int) ==> forall|m: int|
            0 <= m <= received.len() ==> !ends_frame(stream, m),
{
    assert forall|m: int| 0 <= m <= received.len() implies ends_frame(stream, m) == ends_frame(
        received,
        m,
    ) by {
        if m >= 2 {
            assert(stream[m - 2] == received[m - 2]);
            assert(stream[m - 1] == received[m - 1]);
        }
    }
}

/// The protocol can carry the field: its name holds no colon and no
/// newline, its value no newline.
pub open spec fn sendable_field(field: (Seq<char>, Seq<char>)) -> bool {
    &&& !field.0.contains(':')
    &&& !field.0.contains('\n')
    &&& !field.1.contains('\n')
}

/// A character other than `c` never encodes to the ASCII byte of `c`.
proof fn lemma_encode_avoids_ascii(chars: Seq<char>, c: char, b: u8)
    requires
        !chars.contains(c),
        b < 0x80,
        c as u32 == b as u32,
    ensures
        !encode_utf8(chars).contains(b),
    decreases chars.len(),
{
    if chars.len() > 0 {
        let rest = chars.drop_first();
        assert(!rest.contains(c)) by {
            if rest.contains(c) {
                let i = choose|i: int| 0 <= i < rest.len() && rest[i] == c;
                assert(chars[i + 1] == c);
            }
        }
        lemma_encode_avoids_ascii(rest, c, b);
        let x = chars[0];
        assert(x != c) by {
            assert(chars[0] == x);
        }
        let v = x as u32;
        vstd::utf8::char_is_scalar(x);
        vstd::utf8::char_u32_cast(x, v);
        vstd::utf8::char_u32_cast(c, c as u32);
        assert(v != b as u32);
        let head = encode_scalar(v);
        assert(!head.contains(b)) by {
            if has_width_1_encoding(v) {
                assert((v & 0x7F) as u8 != b) by (bit_vector)
                    requires
                        v <= 0x7f,
                        v != b as u32,
                ;
                assert(head =~= seq![leading_byte_width_1(v)]);
            } else {
                assert((0xC0u8 | ((v >> 6) & 0x1F) as u8) >= 0x80) by (bit_vector);
                assert((0xE0u8 | ((v >> 12) & 0x0F) as u8) >= 0x80) by (bit_vector);
                assert((0xF0u8 | ((v >> 18) & 0x7) as u8) >= 0x80) by (bit_vector);
                assert((0x80u8 | (v & 0x3F) as u8) >= 0x80) by (bit_vector);
                assert((0x80u8 | ((v >> 6) & 0x3F) as u8) >= 0x80) by (bit_vector);
                assert((0x80u8 | ((v >> 12) & 0x3F) as u8) >= 0x80) by (bit_vector);
                assert(forall|i: int| 0 <= i < head.len() ==> head[i] >= 0x80);
            }
        }
        let all = encode_utf8(chars);
        assert(all == head + encode_utf8(rest));
        if all.contains(b) {
            let i = choose|i: int| 0 <= i < all.len() && all[i] == b;
            if i < head.len() {
                assert(head[i] == b);
            } else {
                assert(encode_utf8(rest)[i - head.len()] == b);
            }
        }
    }
}

/// Bytes without a newline form no complete line and are all pending.
proof fn lemma_lines_of_unended(bytes: Seq<u8>)
    requires
        !bytes.contains(NEWLINE),
    ensures
        complete_lines(bytes) == Seq::<Seq<u8>>::empty(),
        pending_line(bytes) == bytes,
    decreases bytes.len(),
{
    if bytes.len() > 0 {
        let init = bytes.drop_last();
        assert(!init.contains(NEWLINE)) by {
            if init.contains(NEWLINE) {
                let i = choose|i: int| 0 <= i < init.len() && init[i] == NEWLINE;
                assert(bytes[i] == NEWLINE);
            }
        }
        assert(bytes.last() != NEWLINE) by {
            assert(bytes[bytes.len() - 1] == bytes.last());
        }
        lemma_lines_of_unended(init);
        assert(init.push(bytes.last()) =~= bytes);
    }
}

/// After bytes that end a line, the lines of what follows are read afresh.
proof fn lemma_lines_append(a: Seq<u8>, b: Seq<u8>)
    requires
        pending_line(a) == Seq::<u8>::empty(),
    ensures
        complete_lines(a + b) == complete_lines(a) + complete_lines(b),
        pending_line(a + b) == pending_line(b),
    decreases b.len(),
{
    if b.len() == 0 {
        assert(a + b =~= a);
        assert(complete_lines(a) + complete_lines(b) =~= complete_lines(a));
    } else {
        lemma_lines_append(a, b.drop_last());
        assert((a + b).drop_last() =~= a + b.drop_last());
        assert((a + b).last() == b.last());
        if b.last() == NEWLINE {
            assert(complete_lines(a) + complete_lines(b.drop_last()).push(
                pending_line(b.drop_last()),
            ) =~= (complete_lines(a) + complete_lines(b.drop_last())).push(
                pending_line(b.drop_last()),
            ));
        }
    }
}

/// The lines of encoded fields are the fields' lines, and nothing is pending.
proof fn lemma_lines_of_fields(fields: FieldSeq)
    requires
        forall|i: int| 0 <= i < fields.len() ==> sendable_field(#[trigger] fields[i]),
    ensures
        complete_lines(encode_fields(fields)) == fields.map_values(
            |f: (Seq<char>, Seq<char>)| field_line(f),
        ),
        pending_line(encode_fields(fields)) == Seq::<u8>::empty(),
    decreases fields.len(),
{
    if fields.len() == 0 {
        assert(fields.map_values(|f: (Seq<char>, Seq<char>)| field_line(f)) =~= Seq::<
            Seq<u8>,
        >::empty());
    } else {
        let init = fields.drop_last();
        let f = fields.last();
        assert(sendable_field(fields[fields.len() - 1]));
        lemma_lines_of_fields(init);
        let line = field_line(f);
        lemma_field_line_has_no_newline(f);
        lemma_lines_of_unended(line);
        assert(line.push(NEWLINE).drop_last() =~= line);
        lemma_lines_append(encode_fields(init), line.push(NEWLINE));
        assert(fields.map_values(|f: (Seq<char>, Seq<char>)| field_line(f)) =~= init.map_values(
            |f: (Seq<char>, Seq<char>)| field_line(f),
        ).push(line));
    }
}

/// The line of a sendable field holds no newline.
proof fn lemma_field_line_has_no_newline(f: (Seq<char>, Seq<char>))
    requires
        sendable_field(f),
    ensures
        !field_line(f).contains(NEWLINE),
        !encode_utf8(f.0).contains(COLON),
{
    lemma_encode_avoids_ascii(f.0, '\n', NEWLINE);
    lemma_encode_avoids_ascii(f.1, '\n', NEWLINE);
    lemma_encode_avoids_ascii(f.0, ':', COLON);
    let k = encode_utf8(f.0);
    let v = encode_utf8(f.1);
    let line = field_line(f);
    if line.contains(NEWLINE) {
        let i = choose|i: int| 0 <= i < line.len() && line[i] == NEWLINE;
        if i < k.len() {
            assert(k[i] == NEWLINE);
        } else if i > k.len() {
            assert(v[i - k.len() - 1] == NEWLINE);
        }
    }
}

/// Reading the line of a sendable field sets that field.
proof fn lemma_read_field_line(m: Map<Seq<char>, Seq<char>>, f: (Seq<char>, Seq<char>))
    requires
        sendable_field(f),
    ensures
        read_line(m, field_line(f)) == Some((m.insert(f.0, f.1), false)),
{
    lemma_field_line_has_no_newline(f);
    let k = encode_utf8(f.0);
    let v = encode_utf8(f.1);
    let line = field_line(f);
    let c = k.len() as int;
    assert(line[c] == COLON);
    assert forall|j: int| 0 <= j < c implies line[j] != COLON by {
        assert(line[j] == k[j]);
    }
    assert(is_first_colon(line, c));
    assert(line.contains(COLON));
    let fc = first_colon(line);
    assert(fc == c) by {
        if fc < c {
            assert(line[fc] != COLON);
        }
        if fc > c {
            assert(line[c] != COLON);
        }
    }
    assert(field_name(line) =~= k);
    assert(field_value(line) =~= v);
    vstd::utf8::encode_utf8_valid_utf8(f.0);
    vstd::utf8::encode_utf8_valid_utf8(f.1);
    vstd::utf8::encode_utf8_decode_utf8(f.0);
    vstd::utf8::encode_utf8_decode_utf8(f.1);
}

/// Reading the lines of sendable fields sets them in order.
proof fn lemma_read_field_lines(fields: FieldSeq)
    requires
        forall|i: int| 0 <= i < fields.len() ==> sendable_field(#[trigger] fields[i]),
    ensures
        read_lines(fields.map_values(|f: (Seq<char>, Seq<char>)| field_line(f))) == Some(
            (fields_map(fields), false),
        ),
    decreases fields.len(),
{
    let lines = fields.map_values(|f: (Seq<char>, Seq<char>)| field_line(f));
    if fields.len() > 0 {
        let init = fields.drop_last();
        lemma_read_field_lines(init);
        assert(lines.drop_last() =~= init.map_values(|f: (Seq<char>, Seq<char>)| field_line(f)));
        assert(sendable_field(fields[fields.len() - 1]));
        lemma_read_field_line(fields_map(init), fields.last());
    }
}

/// The encoded fields hold no two newlines in a row, and do not begin with
/// a newline.
proof fn lemma_fields_have_no_blank_line(fields: FieldSeq)
    requires
        forall|i: int| 0 <= i < fields.len() ==> sendable_field(#[trigger] fields[i]),
    ensures
        forall|j: int|
            0 <= j && j + 1 < encode_fields(fields).len() ==> !(#[trigger] encode_fields(
                fields,
            )[j] == NEWLINE && encode_fields(fields)[j + 1] == NEWLINE),
        encode_fields(fields).len() > 0 ==> encode_fields(fields)[0] != NEWLINE,
        fields.len() > 0 ==> encode_fields(fields).len() > 0 && encode_fields(fields).last()
            == NEWLINE,
    decreases fields.len(),
{
    if fields.len() > 0 {
        let init = fields.drop_last();
        lemma_fields_have_no_blank_line(init);
        let f = fields.last();
        assert(sendable_field(fields[fields.len() - 1]));
        lemma_field_line_has_no_newline(f);
        let a = encode_fields(init);
        let line = field_line(f);
        let b = line.push(NEWLINE);
        let s = a + b;
        assert(s == encode_fields(fields));
        let k = encode_utf8(f.0);
        assert(b[0] != NEWLINE) by {
            if k.len() > 0 {
                assert(b[0] == k[0]);
                assert(line.contains(k[0]));
            } else {
                assert(b[0] == line[0]);
                assert(line[0] == COLON);
            }
        }
        assert forall|j: int| 0 <= j && j + 1 < s.len() implies !(#[trigger] s[j] == NEWLINE
            && s[j + 1] == NEWLINE) by {
            if j + 1 < a.len() {
                assert(s[j] == a[j]);
                assert(s[j + 1] == a[j + 1]);
            } else if j + 1 == a.len() {
                assert(s[j + 1] == b[0]);
            } else {
                assert(s[j] == b[j - a.len()]);
                assert(b[j - a.len()] == line[j - a.len()]);
                assert(line.contains(line[j - a.len()]));
            }
        }
        if a.len() == 0 {
            assert(s[0] == b[0]);
        } else {
            assert(s[0] == a[0]);
        }
        assert(s.last() == b.last());
    }
}

/// Sending a packet and reading the bytes back, followed by anything, gives
/// back its fields: the reader takes exactly the sent bytes, none of its
/// values fails to read, and the fields read are the packet's. This holds
/// for packets with at least one field whose names hold no colon or newline
/// and whose values hold no newline.
pub proof fn lemma_send_then_get(fields: FieldSeq, rest: Seq<u8>)
    requires
        fields.len() > 0,
        forall|i: int| 0 <= i < fields.len() ==> sendable_field(#[trigger] fields[i]),
    ensures
        is_frame_len(encode_packet(fields) + rest, encode_packet(fields).len() as int),
        (encode_packet(fields) + rest).take(encode_packet(fields).len() as int) == encode_packet(
            fields,
        ),
        !parse_panics(encode_packet(fields)),
        parsed_fields(encode_packet(fields)) == fields_map(fields),
{
    let e = encode_fields(fields);
    let p = encode_packet(fields);
    let s = p + rest;
    let n = p.len() as int;
    assert(s.take(n) =~= p);
    lemma_fields_have_no_blank_line(fields);
    assert(ends_frame(s, n)) by {
        assert(s[n - 1] == p[n - 1]);
        assert(s[n - 2] == e[e.len() - 1]);
    }
    assert forall|m: int| 0 <= m < n implies !ends_frame(s, m) by {
        if m >= 2 {
            assert(s[m - 2] == e[m - 2]);
            assert(s[m - 1] == e[m - 1]);
        }
    }
    // The lines of the packet: the fields' lines, then the empty line.
    lemma_lines_of_fields(fields);
    let lines = fields.map_values(|f: (Seq<char>, Seq<char>)| field_line(f));
    assert(p.drop_last() =~= e);
    assert(complete_lines(p) == lines.push(Seq::<u8>::empty()));
    lemma_read_field_lines(fields);
    assert(lines.push(Seq::<u8>::empty()).drop_last() =~= lines);
    assert(!Seq::<u8>::empty().contains(COLON));
}

/// Sending a packet and reading the bytes back, followed by anything,
/// gives back the packet: `get_packet` takes exactly the bytes that
/// `send_packet` gives and reads the packet's fields from them. This holds
/// for packets with at least one field, whose names hold no colon or
/// newline and whose values hold no newline.
pub proof fn lemma_packet_round_trip(packet: Packet, rest: Seq<u8>)
    requires
        packet.fields().len() > 0,
        forall|i: int|
            0 <= i < packet.fields().len() ==> sendable_field(#[trigger] packet.fields()[i]),
    ensures
        is_frame_len(
            encode_packet(packet.fields()) + rest,
            encode_packet(packet.fields()).len() as int,
        ),
        !frame_panics(encode_packet(packet.fields()) + rest),
        parsed_fields(encode_packet(packet.fields())) == packet@,
{
    let e = encode_packet(packet.fields());
    let s = e + rest;
    lemma_send_then_get(packet.fields(), rest);
    assert(!frame_panics(s)) by {
        if frame_panics(s) {
            let n = choose|n: int| is_frame_len(s, n) && parse_panics(s.take(n));
            assert(!ends_frame(s, n) || n >= e.len());
            assert(!ends_frame(s, e.len() as int) || e.len() >= n);
        }
    }
}

/// Bytes after a packet's last newline change nothing that it reads.
pub proof fn lemma_unended_tail_ignored(bytes: Seq<u8>, tail: Seq<u8>)
    requires
        bytes.len() == 0 || bytes.last() == NEWLINE,
        !tail.contains(NEWLINE),
    ensures
        parse_panics(bytes + tail) == parse_panics(bytes),
        parsed_fields(bytes + tail) == parsed_fields(bytes),
{
    assert(pending_line(bytes) == Seq::<u8>::empty()) by {
        if bytes.len() > 0 {
            assert(bytes.last() == NEWLINE);
        }
    }
    lemma_lines_append(bytes, tail);
    lemma_lines_of_unended(tail);
    assert(complete_lines(bytes) + Seq::<Seq<u8>>::empty() =~= complete_lines(bytes));
}

/// Reading the packet's lines stops at a name that is not UTF-8.
pub open spec fn parse_stops(bytes: Seq<u8>) -> bool {
    read_lines(complete_lines(bytes)) matches Some((_, stopped)) && stopped
}

/// Reading lines after lines that set `fields` and did not stop: the
/// outcome is that of reading the later lines alone, on top of `fields`.
proof fn lemma_read_lines_concat(
    a: Seq<Seq<u8>>,
    b: Seq<Seq<u8>>,
    fields: Map<Seq<char>, Seq<char>>,
)
    requires
        read_lines(a) == Some((fields, false)),
    ensures
        read_lines(a + b) == match read_lines(b) {
            None => None,
            Some((later, stopped)) => Some((fields.union_prefer_right(later), stopped)),
        },
    decreases b.len(),
{
    if b.len() == 0 {
        assert(a + b =~= a);
        assert(fields.union_prefer_right(Map::empty()) =~= fields);
    } else {
        let init = b.drop_last();
        lemma_read_lines_concat(a, init, fields);
        assert((a + b).drop_last() =~= a + init);
        assert((a + b).last() == b.last());
        match read_lines(init) {
            None => {},
            Some((later, stopped)) => {
                if !stopped {
                    let line = b.last();
                    if line.contains(COLON) && valid_utf8(field_name(line)) && valid_utf8(
                        field_value(line),
                    ) {
                        let k = decode_utf8(field_name(line));
                        let v = decode_utf8(field_value(line));
                        assert(fields.union_prefer_right(later).insert(k, v)
                            =~= fields.union_prefer_right(later.insert(k, v)));
                    }
                }
            },
        }
    }
}

/// Reading two runs of bytes one after the other, where the first ends a
/// line (or is empty), cannot fail and does not stop: the fields read are
/// those of the first run, replaced and joined by those of the second, and
/// the whole fails exactly where the second run alone fails.
pub proof fn lemma_parse_concat(x: Seq<u8>, y: Seq<u8>)
    requires
        x.len() == 0 || x.last() == NEWLINE,
        !parse_panics(x),
        !parse_stops(x),
    ensures
        parse_panics(x + y) == parse_panics(y),
        parse_stops(x + y) == parse_stops(y),
        !parse_panics(x + y) ==> parsed_fields(x + y) == parsed_fields(x).union_prefer_right(
            parsed_fields(y),
        ),
{
    assert(pending_line(x) == Seq::<u8>::empty()) by {
        if x.len() > 0 {
            assert(x.last() == NEWLINE);
        }
    }
    lemma_lines_append(x, y);
    let fields = parsed_fields(x);
    assert(read_lines(complete_lines(x)) == Some((fields, false)));
    lemma_read_lines_concat(complete_lines(x), complete_lines(y), fields);
}

/// Some line of `lines` is the field `(name, value)` spelled out.
pub open spec fn spelled_by(lines: Seq<Seq<u8>>, name: Seq<char>, value: Seq<char>) -> bool {
    exists|i: int| 0 <= i < lines.len() && lines[i] == field_line((name, value))
}

proof fn lemma_read_lines_spelled(lines: Seq<Seq<u8>>)
    ensures
        read_lines(lines) matches Some((m, _)) ==> forall|k: Seq<char>|
            #[trigger] m.dom().contains(k) ==> spelled_by(lines, k, m[k]),
    decreases lines.len(),
{
    if lines.len() > 0 {
        let init = lines.drop_last();
        lemma_read_lines_spelled(init);
        match read_lines(init) {
            None => {},
            Some((m0, stopped)) => {
                assert forall|k: Seq<char>| #[trigger]
                    m0.dom().contains(k) && spelled_by(init, k, m0[k]) implies spelled_by(
                    lines,
                    k,
                    m0[k],
                ) by {
                    let i = choose|i: int|
                        0 <= i < init.len() && init[i] == field_line((k, m0[k]));
                    assert(lines[i] == init[i]);
                }
                if !stopped {
                    let line = lines.last();
                    if line.contains(COLON) && valid_utf8(field_name(line)) && valid_utf8(
                        field_value(line),
                    ) {
                        let name = field_name(line);
                        let value = field_value(line);
                        let k2 = decode_utf8(name);
                        let v2 = decode_utf8(value);
                        assert(is_first_colon(line, first_colon(line))) by {
                            let j = choose|j: int| 0 <= j < line.len() && line[j] == COLON;
                            lemma_first_colon_exists(line, j);
                        }
                        decode_utf8_encode_utf8(name);
                        decode_utf8_encode_utf8(value);
                        assert(line =~= name + seq![COLON] + value);
                        assert(lines[lines.len() - 1] == field_line((k2, v2)));
                        let m = m0.insert(k2, v2);
                        assert forall|k: Seq<char>| #[trigger]
                            m.dom().contains(k) implies spelled_by(lines, k, m[k]) by {
                            if k != k2 {
                                assert(m0.dom().contains(k));
                            }
                        }
                    }
                }
            },
        }
    }
}

/// A line that holds a colon has a first one.
proof fn lemma_first_colon_exists(line: Seq<u8>, j: int)
    requires
        0 <= j < line.len(),
        line[j] == COLON,
    ensures
        exists|i: int| is_first_colon(line, i),
    decreases j,
{
    if forall|i: int| 0 <= i < j ==> line[i] != COLON {
        assert(is_first_colon(line, j));
    } else {
        let i = choose|i: int| 0 <= i < j && line[i] == COLON;
        lemma_first_colon_exists(line, i);
    }
}

/// Every field that reading a packet sets stands spelled out, unchanged, in
/// one of the packet's complete lines: the UTF-8 bytes of its name, a
/// colon, and the UTF-8 bytes of its value. Reading changes no character of
/// a name or a value.
pub proof fn lemma_fields_spelled_by_lines(bytes: Seq<u8>)
    requires
        !parse_panics(bytes),
    ensures
        forall|k: Seq<char>|
            #[trigger] parsed_fields(bytes).dom().contains(k) ==> spelled_by(
                complete_lines(bytes),
                k,
                parsed_fields(bytes)[k],
            ),
{
    lemma_read_lines_spelled(complete_lines(bytes));
}

} // verus!
