use vstd::prelude::*;

verus! {

/// The abstract content of a record: field name to field value.
pub type RecordView = Map<Seq<char>, Seq<char>>;

/// The map that a list of (name, value) pairs denotes; a later pair with an
/// already present name overrides the earlier one.
pub open spec fn fields_map(fs: Seq<(Seq<char>, Seq<char>)>) -> RecordView
    decreases fs.len(),
{
    if fs.len() == 0 {
        Map::empty()
    } else {
        fields_map(fs.drop_last()).insert(fs.last().0, fs.last().1)
    }
}

/// Pairs each header name with the raw value standing in the same column.
pub open spec fn zip_fields(header: Seq<Seq<char>>, raw: Seq<Seq<char>>) -> Seq<(Seq<char>, Seq<char>)> {
    Seq::new(header.len(), |i: int| (header[i], raw[i]))
}

/// The record that one well-formed raw row denotes under a header.
pub open spec fn record_of(header: Seq<Seq<char>>, raw: Seq<Seq<char>>) -> RecordView {
    fields_map(zip_fields(header, raw))
}

/// The views of a list of strings.
pub open spec fn strings_view(v: Seq<String>) -> Seq<Seq<char>> {
    v.map_values(|s: String| s@)
}

/// One named value of a record.
#[derive(Debug)]
pub struct Field {
    pub name: String,
    pub value: String,
}

impl Field {
    pub open spec fn pair(&self) -> (Seq<char>, Seq<char>) {
        (self.name@, self.value@)
    }
}

/// A decoded row: its fields, in header order.
#[derive(Debug)]
pub struct Record {
    fields: Vec<Field>,
}

impl View for Record {
    type V = RecordView;

    open spec fn view(&self) -> RecordView {
        fields_map(self.pairs())
    }
}

/// Why a raw row could not be decoded.
#[derive(Debug, Clone, Copy, PartialEq, Eq, Structural)]
pub enum DecodeError {
    /// The row holds `found` values where the header names `expected` fields.
    FieldCountMismatch { expected: usize, found: usize },
    /// The record has no field of the requested name.
    MissingField,
    /// The value is not of the requested type.
    TypeConversion,
}

/// A decimal digit.
pub open spec fn is_digit(c: char) -> bool {
    '0' <= c && c <= '9'
}

/// A non-empty run of decimal digits.
pub open spec fn is_decimal(s: Seq<char>) -> bool {
    s.len() > 0 && forall|i: int| 0 <= i < s.len() ==> #[trigger] is_digit(s[i])
}

/// The number that a run of decimal digits writes.
pub open spec fn decimal_value(s: Seq<char>) -> int
    decreases s.len(),
{
    if s.len() == 0 {
        0
    } else {
        decimal_value(s.drop_last()) * 10 + (s.last() as int - '0' as int)
    }
}

/// A longer run of digits never writes a smaller number.
proof fn lemma_decimal_grows(s: Seq<char>, k: int)
    requires
        0 <= k <= s.len(),
        forall|i: int| 0 <= i < s.len() ==> #[trigger] is_digit(s[i]),
    ensures
        decimal_value(s.take(k)) <= decimal_value(s),
    decreases s.len(),
{
    if k < s.len() {
        let d = s.drop_last();
        assert forall|i: int| 0 <= i < d.len() implies #[trigger] is_digit(d[i]) by {
            assert(d[i] == s[i]);
        }
        lemma_decimal_grows(d, k);
        assert(d.take(k) =~= s.take(k));
        assert(is_digit(s[s.len() - 1]));
        assert(decimal_value(d) >= 0) by {
            lemma_decimal_nonneg(d);
        }
    } else {
        assert(s.take(k) =~= s);
    }
}

/// A run of digits writes no negative number.
proof fn lemma_decimal_nonneg(s: Seq<char>)
    requires
        forall|i: int| 0 <= i < s.len() ==> #[trigger] is_digit(s[i]),
    ensures
        decimal_value(s) >= 0,
    decreases s.len(),
{
    if s.len() > 0 {
        let d = s.drop_last();
        assert forall|i: int| 0 <= i < d.len() implies #[trigger] is_digit(d[i]) by {
            assert(d[i] == s[i]);
        }
        lemma_decimal_nonneg(d);
        assert(is_digit(s[s.len() - 1]));
    }
}

/// Reads a value as an unsigned 64-bit integer written in decimal digits.
pub fn parse_u64(s: &String) -> (r: Result<u64, DecodeError>)
    ensures
        r is Ok <==> is_decimal(s@) && decimal_value(s@) <= u64::MAX,
        r matches Ok(v) ==> v == decimal_value(s@),
        r matches Err(e) ==> e == DecodeError::TypeConversion,
{
    let t = s.as_str();
    if !t.is_ascii() {
        proof {
            let i = choose|i: int| 0 <= i < s@.len() && !('\0' <= #[trigger] s@[i] <= '\u{7f}');
            assert(!is_digit(s@[i]));
        }
        return Err(DecodeError::TypeConversion);
    }
    let n = t.unicode_len();
    if n == 0 {
        return Err(DecodeError::TypeConversion);
    }
    let mut v: u64 = 0;
    let mut i: usize = 0;
    while i < n
        invariant
            0 <= i <= n,
            n == s@.len(),
            t@ == s@,
            t.is_ascii(),
            forall|j: int| 0 <= j < i ==> #[trigger] is_digit(s@[j]),
            v == decimal_value(s@.take(i as int)),
        decreases n - i,
    {
        let b = t.get_ascii(i);
        let ghost c = s@[i as int];
        if b < 48 || b > 57 {
            assert(!is_digit(c));
            return Err(DecodeError::TypeConversion);
        }
        let d = (b - 48) as u64;
        assert(s@.take(i + 1).drop_last() =~= s@.take(i as int));
        if v > (u64::MAX - d) / 10 {
            proof {
                assert(v * 10 + d > u64::MAX) by (nonlinear_arith)
                    requires v > (u64::MAX - d) / 10, d <= 9;
                if is_decimal(s@) {
                    lemma_decimal_grows(s@, i + 1);
                }
            }
            return Err(DecodeError::TypeConversion);
        }
        assert(v * 10 + d <= u64::MAX) by (nonlinear_arith)
            requires v <= (u64::MAX - d) / 10, d <= 9;
        v = v * 10 + d;
        i = i + 1;
    }
    assert(s@.take(n as int) =~= s@);
    Ok(v)
}

/// No pair after position `k` carries `name`.
pub open spec fn absent_after(fs: Seq<(Seq<char>, Seq<char>)>, name: Seq<char>, k: int) -> bool {
    forall|j: int| k <= j < fs.len() ==> #[trigger] fs[j].0 != name
}

/// A name that no pair from `k` on carries has, in the whole list, what it has in the first `k` pairs.
proof fn lemma_fields_map_prefix(fs: Seq<(Seq<char>, Seq<char>)>, name: Seq<char>, k: int)
    requires
        0 <= k <= fs.len(),
        absent_after(fs, name, k),
    ensures
        fields_map(fs).contains_key(name) == fields_map(fs.take(k)).contains_key(name),
        fields_map(fs).contains_key(name) ==> fields_map(fs)[name] == fields_map(fs.take(k))[name],
    decreases fs.len(),
{
    if fs.len() > k {
        let d = fs.drop_last();
        assert(absent_after(d, name, k));
        lemma_fields_map_prefix(d, name, k);
        assert(d.take(k) =~= fs.take(k));
        assert(fs[fs.len() - 1].0 != name);
    } else {
        assert(fs.take(k) =~= fs);
    }
}

/// Setting the value of the last pair that carries `name` sets `name` in the map.
proof fn lemma_fields_map_update(fs: Seq<(Seq<char>, Seq<char>)>, i: int, v: Seq<char>)
    requires
        0 <= i < fs.len(),
        absent_after(fs, fs[i].0, i + 1),
    ensures
        fields_map(fs.update(i, (fs[i].0, v))) == fields_map(fs).insert(fs[i].0, v),
    decreases fs.len(),
{
    let name = fs[i].0;
    let u = fs.update(i, (name, v));
    if i == fs.len() - 1 {
        assert(u.drop_last() =~= fs.drop_last());
        assert(fields_map(u) =~= fields_map(fs).insert(name, v));
    } else {
        let d = fs.drop_last();
        assert(absent_after(d, name, i + 1));
        lemma_fields_map_update(d, i, v);
        assert(u.drop_last() =~= d.update(i, (name, v)));
        assert(fs.last().0 != name);
        assert(fields_map(u) =~= fields_map(fs).insert(name, v));
    }
}

/// The names of a record are those of the pairs it was built from.
proof fn lemma_fields_map_domain(fs: Seq<(Seq<char>, Seq<char>)>)
    ensures
        fields_map(fs).dom() == fs.map_values(|p: (Seq<char>, Seq<char>)| p.0).to_set(),
    decreases fs.len(),
{
    let names = fs.map_values(|p: (Seq<char>, Seq<char>)| p.0);
    if fs.len() > 0 {
        let d = fs.drop_last();
        lemma_fields_map_domain(d);
        assert(names =~= d.map_values(|p: (Seq<char>, Seq<char>)| p.0).push(fs.last().0));
        d.map_values(|p: (Seq<char>, Seq<char>)| p.0).lemma_push_to_set_commute(fs.last().0);
    }
    assert(fields_map(fs).dom() =~= names.to_set());
}

impl Record {
    /// The fields as (name, value) pairs of character sequences.
    pub closed spec fn pairs(&self) -> Seq<(Seq<char>, Seq<char>)> {
        self.fields@.map_values(|f: Field| f.pair())
    }

    /// A record with no fields.
    pub fn new() -> (r: Record)
        ensures
            r@ == RecordView::empty(),
            r.pairs().len() == 0,
    {
        let r = Record { fields: Vec::new() };
        assert(r.pairs() =~= Seq::empty());
        r
    }

    /// The fields in the order they were decoded.
    pub fn fields(&self) -> (r: &Vec<Field>)
        ensures
            r@.map_values(|f: Field| f.pair()) == self.pairs(),
    {
        &self.fields
    }

    /// The number of stored fields.
    pub fn len(&self) -> (n: usize)
        ensures
            n == self.pairs().len(),
    {
        self.fields.len()
    }

    /// The value of the field `name`, if the record has one.
    pub fn get(&self, name: &str) -> (r: Option<&String>)
        ensures
            r is Some <==> self@.contains_key(name@),
            r matches Some(v) ==> v@ == self@[name@],
    {
        let key = String::from_str(name);
        let ghost fs = self.pairs();
        let mut i: usize = self.fields.len();
        while i > 0
            invariant
                i <= self.fields.len(),
                fs == self.pairs(),
                key@ == name@,
                absent_after(fs, name@, i as int),
            decreases i,
        {
            let f = &self.fields[i - 1];
            if f.name == key {
                proof {
                    lemma_fields_map_prefix(fs, name@, i as int);
                    let t = fs.take(i as int);
                    assert(t.drop_last() =~= fs.take(i - 1));
                }
                return Some(&f.value);
            }
            assert(fs[i - 1].0 != name@);
            i = i - 1;
        }
        proof {
            lemma_fields_map_prefix(fs, name@, 0);
            assert(fs.take(0) =~= Seq::empty());
        }
        None
    }

    /// The value of the field `name` read as a decimal unsigned integer.
    pub fn get_u64(&self, name: &str) -> (r: Result<u64, DecodeError>)
        ensures
            !self@.contains_key(name@) <==> r == Err::<u64, DecodeError>(DecodeError::MissingField),
            self@.contains_key(name@) ==> (r is Ok <==> is_decimal(self@[name@]) && decimal_value(
                self@[name@],
            ) <= u64::MAX),
            r matches Ok(v) ==> v == decimal_value(self@[name@]),
    {
        match self.get(name) {
            Some(v) => parse_u64(v),
            None => Err(DecodeError::MissingField),
        }
    }

    /// Gives field `name` the value `value`: an existing field keeps its
    /// place, a new one goes last.
    pub fn insert(&mut self, name: String, value: String)
        ensures
            final(self)@ == old(self)@.insert(name@, value@),
    {
        let ghost fs = self.pairs();
        let mut i: usize = self.fields.len();
        while i > 0
            invariant
                i <= self.fields.len(),
                fs == self.pairs(),
                *self == *old(self),
                absent_after(fs, name@, i as int),
            decreases i,
        {
            if self.fields[i - 1].name == name {
                proof { lemma_fields_map_update(fs, i - 1, value@); }
                let ghost v = value@;
                self.fields.set(i - 1, Field { name, value });
                proof {
                    assert(self.pairs() =~= fs.update(i - 1, (fs[i - 1].0, v)));
                }
                return;
            }
            assert(fs[i - 1].0 != name@);
            i = i - 1;
        }
        self.fields.push(Field { name, value });
        proof {
            assert(self.pairs().drop_last() =~= fs);
        }
    }
}

/// Decodes one raw row against the header: the value in each column is
/// filed under that column's name.
pub fn decode(header: &Vec<String>, raw: &Vec<String>) -> (r: Result<Record, DecodeError>)
    ensures
        raw.len() != header.len() <==> r is Err,
        r matches Err(e) ==> e == (DecodeError::FieldCountMismatch {
            expected: header.len(),
            found: raw.len(),
        }),
        r matches Ok(rec) ==> rec@ == record_of(strings_view(header@), strings_view(raw@)),
        r matches Ok(rec) ==> rec.pairs() == zip_fields(strings_view(header@), strings_view(raw@)),
        r matches Ok(rec) ==> rec@.dom() == strings_view(header@).to_set(),
{
    if raw.len() != header.len() {
        return Err(DecodeError::FieldCountMismatch { expected: header.len(), found: raw.len() });
    }
    let ghost z = zip_fields(strings_view(header@), strings_view(raw@));
    let mut fields: Vec<Field> = Vec::new();
    let mut i: usize = 0;
    while i < header.len()
        invariant
            i <= header.len(),
            raw.len() == header.len(),
            z == zip_fields(strings_view(header@), strings_view(raw@)),
            fields@.map_values(|f: Field| f.pair()) =~= z.take(i as int),
        decreases header.len() - i,
    {
        let f = Field { name: header[i].clone(), value: raw[i].clone() };
        assert(f.pair() == z[i as int]);
        let ghost prev = fields@;
        fields.push(f);
        assert(fields@.map_values(|f: Field| f.pair()) =~= prev.map_values(|f: Field| f.pair()).push(z[i as int]));
        assert(fields@.map_values(|f: Field| f.pair()) =~= z.take(i + 1));
        i = i + 1;
    }
    assert(z.take(i as int) =~= z);
    proof {
        lemma_fields_map_domain(z);
        assert(z.map_values(|p: (Seq<char>, Seq<char>)| p.0) =~= strings_view(header@));
    }
    Ok(Record { fields })
}

} // verus!
