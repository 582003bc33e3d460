//! Schema registry and query-argument tracking state.
//!
//! The registry maps table names to field collections; a field collection
//! maps field names to their canonical [`Type`], kept sorted by field name so
//! that downstream output is deterministic. The tracker records the
//! positional bind arguments of the query currently under analysis.

use crate::order::{lemma_lex_lt_connected, lemma_lex_lt_irreflexive, lemma_lex_lt_transitive,
    lex_lt, str_eq, str_lt};
use vstd::prelude::*;

verus! {

/// A field type: a canonical scalar kind, a reference to another table
/// (`Custom`), or the `Dummy` sentinel meaning "could not classify".
///
/// `Dummy` is a diagnostic signal, not a real storage type: a later pass
/// treats every `Dummy` field as invalid.
#[derive(Debug, PartialEq, Eq)]
pub enum Type {
    Bool,
    ByteString,
    Char,
    Custom(std::string::String),
    Dummy,
    F32,
    F64,
    I32,
    I64,
    String,
    U8,
    U32,
}

impl Type {
    /// The host-language spelling of the type; `Dummy` has none, and a
    /// `Custom` reference is spelled as the referenced table's name.
    pub open spec fn spec_text(self) -> Seq<char> {
        match self {
            Type::Bool => "bool"@,
            Type::ByteString => "Vec<u8>"@,
            Type::Char => "char"@,
            Type::Custom(name) => name@,
            Type::Dummy => ""@,
            Type::F32 => "f32"@,
            Type::F64 => "f64"@,
            Type::I32 => "i32"@,
            Type::I64 => "i64"@,
            Type::String => "String"@,
            Type::U8 => "u8"@,
            Type::U32 => "u32"@,
        }
    }

    /// Renders the type as its host-language spelling.
    pub fn to_text(&self) -> (r: std::string::String)
        ensures
            r@ == self.spec_text(),
    {
        match self {
            Type::Bool => "bool".to_owned(),
            Type::ByteString => "Vec<u8>".to_owned(),
            Type::Char => "char".to_owned(),
            Type::Custom(name) => name.clone(),
            Type::Dummy => "".to_owned(),
            Type::F32 => "f32".to_owned(),
            Type::F64 => "f64".to_owned(),
            Type::I32 => "i32".to_owned(),
            Type::I64 => "i64".to_owned(),
            Type::String => "String".to_owned(),
            Type::U8 => "u8".to_owned(),
            Type::U32 => "u32".to_owned(),
        }
    }
}

/// An SQL query argument: its source span (`low`..`high`) and its name.
#[derive(Debug, PartialEq, Eq)]
pub struct SqlArg {
    pub high: u32,
    pub low: u32,
    pub name: std::string::String,
}

/// The bind arguments of the query under analysis: one slot per placeholder,
/// in source order, `None` standing for a hole with no argument supplied,
/// together with the name of the table the query targets.
#[derive(Debug)]
pub struct SqlArgs {
    pub arguments: Vec<Option<SqlArg>>,
    pub table_name: std::string::String,
}

impl SqlArgs {
    /// An empty tracker with an empty table-name context.
    pub fn new() -> (r: SqlArgs)
        ensures
            r.arguments@ =~= Seq::<Option<SqlArg>>::empty(),
            r.table_name@ =~= Seq::<char>::empty(),
    {
        SqlArgs { arguments: Vec::new(), table_name: std::string::String::new() }
    }

    /// Clears the argument sequence and sets the table-name context, whatever
    /// was collected before. Must be called at the start of each new query
    /// analysis.
    pub fn reset(&mut self, table_name: std::string::String)
        ensures
            final(self).arguments@ =~= Seq::<Option<SqlArg>>::empty(),
            final(self).table_name == table_name,
    {
        self.arguments.clear();
        self.table_name = table_name;
    }

    /// Appends one argument slot at the end of the sequence, preserving call
    /// order.
    pub fn push(&mut self, argument: Option<SqlArg>)
        ensures
            final(self).arguments@ =~= old(self).arguments@.push(argument),
            final(self).table_name == old(self).table_name,
    {
        self.arguments.push(argument);
    }

    /// The current ordered argument sequence and table-name context.
    pub fn snapshot(&self) -> (r: (&Vec<Option<SqlArg>>, &str))
        ensures
            r.0@ =~= self.arguments@,
            r.1@ == self.table_name@,
    {
        (&self.arguments, self.table_name.as_str())
    }
}

/// Slots pushed after a reset are snapshotted in exactly the order they were
/// pushed: a reset followed by three pushes yields precisely those three
/// slots, first to last.
pub proof fn lemma_tracker_ordering(a: Option<SqlArg>, b: Option<SqlArg>, c: Option<SqlArg>)
    ensures
        Seq::<Option<SqlArg>>::empty().push(a).push(b).push(c) =~= seq![a, b, c],
{
}

/// Looks a key up in an association sequence; the first match wins.
pub open spec fn assoc_get<V>(s: Seq<(std::string::String, V)>, key: Seq<char>) -> Option<V>
    decreases s.len(),
{
    if s.len() == 0 {
        None
    } else if s[0].0@ == key {
        Some(s[0].1)
    } else {
        assoc_get(s.drop_first(), key)
    }
}

/// Whether an association sequence stands in strictly increasing name order.
pub open spec fn sorted_by_name<V>(s: Seq<(std::string::String, V)>) -> bool {
    forall|i: int, j: int|
        0 <= i < j < s.len() ==> lex_lt(#[trigger] s[i].0@, #[trigger] s[j].0@)
}

/// The entries of an association sequence, names taken as character
/// sequences.
pub open spec fn entry_views<V>(s: Seq<(std::string::String, V)>) -> Seq<(Seq<char>, V)> {
    s.map_values(|p: (std::string::String, V)| (p.0@, p.1))
}

proof fn lemma_assoc_found<V>(s: Seq<(std::string::String, V)>, i: int, key: Seq<char>)
    requires
        0 <= i < s.len(),
        s[i].0@ == key,
        forall|j: int| 0 <= j < i ==> #[trigger] s[j].0@ != key,
    ensures
        assoc_get(s, key) == Some(s[i].1),
    decreases i,
{
    if i > 0 {
        assert(forall|j: int| 0 <= j < i - 1 ==> #[trigger] s.drop_first()[j].0@ == s[j + 1].0@);
        lemma_assoc_found(s.drop_first(), i - 1, key);
    }
}

proof fn lemma_assoc_none<V>(s: Seq<(std::string::String, V)>, key: Seq<char>)
    requires
        forall|j: int| 0 <= j < s.len() ==> #[trigger] s[j].0@ != key,
    ensures
        assoc_get(s, key) is None,
    decreases s.len(),
{
    if s.len() > 0 {
        assert(forall|j: int| 0 <= j < s.len() - 1 ==> #[trigger] s.drop_first()[j].0@ == s[j
            + 1].0@);
        lemma_assoc_none(s.drop_first(), key);
    }
}

proof fn lemma_assoc_insert<V>(s: Seq<(std::string::String, V)>, i: int, p: (
    std::string::String,
    V,
), key: Seq<char>)
    requires
        0 <= i <= s.len(),
        forall|j: int| 0 <= j < s.len() ==> #[trigger] s[j].0@ != p.0@,
    ensures
        assoc_get(s.insert(i, p), key) == if key == p.0@ {
            Some(p.1)
        } else {
            assoc_get(s, key)
        },
    decreases i,
{
    let r = s.insert(i, p);
    s.insert_ensures(i, p);
    if i == 0 {
        assert(r[0] == p);
        assert(r.drop_first() =~= s);
    } else {
        assert(r[0] == s[0]);
        s.drop_first().insert_ensures(i - 1, p);
        assert(r.drop_first() =~= s.drop_first().insert(i - 1, p));
        assert(forall|j: int| 0 <= j < s.len() - 1 ==> #[trigger] s.drop_first()[j].0@ == s[j
            + 1].0@);
        lemma_assoc_insert(s.drop_first(), i - 1, p, key);
    }
}

proof fn lemma_assoc_update<V>(s: Seq<(std::string::String, V)>, i: int, p: (
    std::string::String,
    V,
), key: Seq<char>)
    requires
        0 <= i < s.len(),
        s[i].0@ == p.0@,
        forall|j: int| 0 <= j < i ==> #[trigger] s[j].0@ != p.0@,
    ensures
        assoc_get(s.update(i, p), key) == if key == p.0@ {
            Some(p.1)
        } else {
            assoc_get(s, key)
        },
    decreases i,
{
    let r = s.update(i, p);
    if i == 0 {
        assert(r[0] == p);
        assert(r.drop_first() =~= s.drop_first());
    } else {
        assert(r[0] == s[0]);
        assert(r.drop_first() =~= s.drop_first().update(i - 1, p));
        assert(forall|j: int| 0 <= j < i - 1 ==> #[trigger] s.drop_first()[j].0@ == s[j + 1].0@);
        lemma_assoc_update(s.drop_first(), i - 1, p, key);
    }
}

proof fn lemma_assoc_some_index<V>(s: Seq<(std::string::String, V)>, key: Seq<char>)
    requires
        assoc_get(s, key) is Some,
    ensures
        exists|i: int|
            0 <= i < s.len() && (#[trigger] s[i].0@) == key && s[i].1 == assoc_get(s, key)->Some_0,
    decreases s.len(),
{
    if s[0].0@ == key {
        assert(0 <= 0 < s.len() && s[0].0@ == key && s[0].1 == assoc_get(s, key)->Some_0);
    } else {
        lemma_assoc_some_index(s.drop_first(), key);
        let i = choose|i: int|
            0 <= i < s.drop_first().len() && (#[trigger] s.drop_first()[i].0@) == key && s
                .drop_first()[i].1 == assoc_get(s.drop_first(), key)->Some_0;
        assert(s[i + 1] == s.drop_first()[i]);
        assert(0 <= i + 1 < s.len() && s[i + 1].0@ == key && s[i + 1].1 == assoc_get(
            s,
            key,
        )->Some_0);
    }
}

proof fn lemma_sorted_unique_repr<V>(
    s1: Seq<(std::string::String, V)>,
    s2: Seq<(std::string::String, V)>,
)
    requires
        sorted_by_name(s1),
        sorted_by_name(s2),
        forall|k: Seq<char>| #[trigger] assoc_get(s1, k) == assoc_get(s2, k),
    ensures
        entry_views(s1) =~= entry_views(s2),
    decreases s1.len(),
{
    if s1.len() == 0 && s2.len() == 0 {
    } else if s2.len() == 0 {
        lemma_assoc_found(s1, 0, s1[0].0@);
        assert(assoc_get(s2, s1[0].0@) is None);
    } else if s1.len() == 0 {
        lemma_assoc_found(s2, 0, s2[0].0@);
        assert(assoc_get(s1, s2[0].0@) is None);
    } else {
        let k1 = s1[0].0@;
        let k2 = s2[0].0@;
        lemma_assoc_found(s1, 0, k1);
        lemma_assoc_found(s2, 0, k2);
        assert(assoc_get(s1, k1) == Some(s1[0].1));
        assert(assoc_get(s2, k2) == Some(s2[0].1));
        assert(assoc_get(s2, k1) is Some);
        assert(assoc_get(s1, k2) is Some);
        lemma_assoc_some_index(s2, k1);
        lemma_assoc_some_index(s1, k2);
        let i2 = choose|i: int|
            0 <= i < s2.len() && (#[trigger] s2[i].0@) == k1 && s2[i].1 == assoc_get(
                s2,
                k1,
            )->Some_0;
        let i1 = choose|i: int|
            0 <= i < s1.len() && (#[trigger] s1[i].0@) == k2 && s1[i].1 == assoc_get(
                s1,
                k2,
            )->Some_0;
        if i2 > 0 && i1 > 0 {
            assert(lex_lt(k2, s2[i2].0@));
            assert(lex_lt(k1, s1[i1].0@));
            lemma_lex_lt_transitive(k1, k2, k1);
            lemma_lex_lt_irreflexive(k1);
        }
        assert(k1 == k2);
        assert(s1[0].1 == s2[0].1);
        let t1 = s1.drop_first();
        let t2 = s2.drop_first();
        assert forall|i: int, j: int| 0 <= i < j < t1.len() implies lex_lt(
            #[trigger] t1[i].0@,
            #[trigger] t1[j].0@,
        ) by {
            assert(t1[i] == s1[i + 1] && t1[j] == s1[j + 1]);
        }
        assert forall|i: int, j: int| 0 <= i < j < t2.len() implies lex_lt(
            #[trigger] t2[i].0@,
            #[trigger] t2[j].0@,
        ) by {
            assert(t2[i] == s2[i + 1] && t2[j] == s2[j + 1]);
        }
        assert forall|j: int| 0 <= j < t1.len() implies (#[trigger] t1[j].0@) != k1 by {
            assert(t1[j] == s1[j + 1]);
            assert(lex_lt(k1, s1[j + 1].0@));
            if s1[j + 1].0@ == k1 {
                lemma_lex_lt_irreflexive(k1);
            }
        }
        assert forall|j: int| 0 <= j < t2.len() implies (#[trigger] t2[j].0@) != k1 by {
            assert(t2[j] == s2[j + 1]);
            assert(lex_lt(k1, s2[j + 1].0@));
            if s2[j + 1].0@ == k1 {
                lemma_lex_lt_irreflexive(k1);
            }
        }
        assert forall|k: Seq<char>| #[trigger] assoc_get(t1, k) == assoc_get(t2, k) by {
            if k == k1 {
                lemma_assoc_none(t1, k);
                lemma_assoc_none(t2, k);
            } else {
                assert(assoc_get(s1, k) == assoc_get(t1, k));
                assert(assoc_get(s2, k) == assoc_get(t2, k));
            }
        }
        lemma_sorted_unique_repr(t1, t2);
        assert forall|i: int| 0 <= i < s1.len() implies entry_views(s1)[i] == entry_views(
            s2,
        )[i] by {
            if i > 0 {
                assert(s1[i] == t1[i - 1] && s2[i] == t2[i - 1]);
                assert(entry_views(t1)[i - 1] == entry_views(t2)[i - 1]);
            }
        }
    }
}

/// A collection of fields: field name to canonical type, kept in strictly
/// increasing field-name order so that enumeration is deterministic.
#[derive(Debug)]
pub struct SqlFields {
    pub fields: Vec<(std::string::String, Type)>,
}

impl SqlFields {
    /// Entries stand in strictly increasing field-name order; names are
    /// therefore unique.
    pub open spec fn wf(self) -> bool {
        sorted_by_name(self.fields@)
    }

    /// The collection as a map from field name to type.
    pub open spec fn as_map(self) -> Map<Seq<char>, Type> {
        Map::new(
            |k: Seq<char>| assoc_get(self.fields@, k) is Some,
            |k: Seq<char>| assoc_get(self.fields@, k)->Some_0,
        )
    }

    /// An empty field collection.
    pub fn new() -> (r: SqlFields)
        ensures
            r.wf(),
            r.as_map() == Map::<Seq<char>, Type>::empty(),
            r.fields@.len() == 0,
    {
        let r = SqlFields { fields: Vec::new() };
        proof {
            assert(r.as_map() =~= Map::<Seq<char>, Type>::empty());
        }
        r
    }

    /// The index of the first entry whose name is not below `name`.
    fn position_for(&self, name: &str) -> (i: usize)
        ensures
            i <= self.fields@.len(),
            forall|j: int| 0 <= j < i ==> lex_lt(#[trigger] self.fields@[j].0@, name@),
            i < self.fields@.len() ==> !lex_lt(self.fields@[i as int].0@, name@),
    {
        let mut i: usize = 0;
        while i < self.fields.len()
            invariant
                i <= self.fields@.len(),
                forall|j: int| 0 <= j < i ==> lex_lt(#[trigger] self.fields@[j].0@, name@),
            decreases self.fields@.len() - i,
        {
            if !str_lt(self.fields[i].0.as_str(), name) {
                return i;
            }
            i = i + 1;
        }
        i
    }

    /// Inserts or replaces the binding of `name`, keeping the entries sorted
    /// by field name. An existing binding is fully replaced.
    pub fn insert(&mut self, name: std::string::String, typ: Type)
        requires
            old(self).wf(),
        ensures
            final(self).wf(),
            final(self).as_map() == old(self).as_map().insert(name@, typ),
    {
        let ghost s0 = self.fields@;
        let i = self.position_for(name.as_str());
        proof {
            assert forall|j: int| 0 <= j < i implies #[trigger] s0[j].0@ != name@ by {
                if s0[j].0@ == name@ {
                    lemma_lex_lt_irreflexive(name@);
                }
            }
        }
        if i < self.fields.len() && str_eq(self.fields[i].0.as_str(), name.as_str()) {
            let _ = self.fields.remove(i);
            self.fields.insert(i, (name, typ));
            proof {
                let p = (name, typ);
                s0.remove_ensures(i as int);
                s0.remove(i as int).insert_ensures(i as int, p);
                assert(self.fields@ =~= s0.update(i as int, p));
                assert forall|x: int, y: int|
                    0 <= x < y < self.fields@.len() implies lex_lt(
                    #[trigger] self.fields@[x].0@,
                    #[trigger] self.fields@[y].0@,
                ) by {
                    assert(self.fields@[x].0@ == s0[x].0@);
                    assert(self.fields@[y].0@ == s0[y].0@);
                    assert(lex_lt(s0[x].0@, s0[y].0@));
                }
                assert forall|k: Seq<char>| #[trigger] assoc_get(self.fields@, k) == (if k
                    == name@ {
                    Some(typ)
                } else {
                    assoc_get(s0, k)
                }) by {
                    lemma_assoc_update(s0, i as int, p, k);
                }
                assert(self.as_map() =~= old(self).as_map().insert(name@, typ));
            }
        } else {
            proof {
                if i < s0.len() {
                    assert(s0[i as int].0@ != name@);
                    if !lex_lt(name@, s0[i as int].0@) {
                        lemma_lex_lt_connected(s0[i as int].0@, name@);
                    }
                    assert(lex_lt(name@, s0[i as int].0@));
                }
                assert forall|j: int| i <= j < s0.len() implies lex_lt(
                    name@,
                    #[trigger] s0[j].0@,
                ) by {
                    if j > i {
                        lemma_lex_lt_transitive(name@, s0[i as int].0@, s0[j].0@);
                    }
                }
                assert forall|j: int| 0 <= j < s0.len() implies #[trigger] s0[j].0@ != name@ by {
                    lemma_lex_lt_irreflexive(name@);
                    if s0[j].0@ == name@ {
                        assert(lex_lt(name@, name@));
                    }
                }
            }
            self.fields.insert(i, (name, typ));
            proof {
                let p = (name, typ);
                s0.insert_ensures(i as int, p);
                assert(self.fields@ == s0.insert(i as int, p));
                assert forall|x: int, y: int|
                    0 <= x < y < self.fields@.len() implies lex_lt(
                    #[trigger] self.fields@[x].0@,
                    #[trigger] self.fields@[y].0@,
                ) by {
                    if y < i {
                        assert(self.fields@[x] == s0[x] && self.fields@[y] == s0[y]);
                    } else if y == i {
                        assert(self.fields@[x] == s0[x] && self.fields@[y] == p);
                    } else if x < i {
                        assert(self.fields@[x] == s0[x] && self.fields@[y] == s0[y - 1]);
                        if x == y - 1 {
                            assert(false);
                        }
                    } else if x == i {
                        assert(self.fields@[x] == p && self.fields@[y] == s0[y - 1]);
                    } else {
                        assert(self.fields@[x] == s0[x - 1] && self.fields@[y] == s0[y - 1]);
                    }
                }
                assert forall|k: Seq<char>| #[trigger] assoc_get(self.fields@, k) == (if k
                    == name@ {
                    Some(typ)
                } else {
                    assoc_get(s0, k)
                }) by {
                    lemma_assoc_insert(s0, i as int, p, k);
                }
                assert(self.as_map() =~= old(self).as_map().insert(name@, typ));
            }
        }
    }

    /// Looks a field up by name.
    pub fn get(&self, name: &str) -> (r: Option<&Type>)
        ensures
            match r {
                Some(t) => self.as_map().contains_key(name@) && self.as_map()[name@] == *t,
                None => !self.as_map().contains_key(name@),
            },
    {
        let mut i: usize = 0;
        while i < self.fields.len()
            invariant
                i <= self.fields@.len(),
                forall|j: int| 0 <= j < i ==> #[trigger] self.fields@[j].0@ != name@,
            decreases self.fields@.len() - i,
        {
            if str_eq(self.fields[i].0.as_str(), name) {
                proof {
                    lemma_assoc_found(self.fields@, i as int, name@);
                }
                return Some(&self.fields[i].1);
            }
            i = i + 1;
        }
        proof {
            lemma_assoc_none(self.fields@, name@);
        }
        None
    }
}

/// The catalog of SQL tables gathered so far: table name to field collection,
/// names unique within the catalog.
#[derive(Debug)]
pub struct SqlTables {
    pub tables: Vec<(std::string::String, SqlFields)>,
}

impl SqlTables {
    /// Table names are unique within the catalog.
    pub open spec fn wf(self) -> bool {
        forall|i: int, j: int|
            0 <= i < j < self.tables@.len() ==> (#[trigger] self.tables@[i].0@)
                != (#[trigger] self.tables@[j].0@)
    }

    /// The catalog as a map from table name to field collection.
    pub open spec fn as_map(self) -> Map<Seq<char>, SqlFields> {
        Map::new(
            |k: Seq<char>| assoc_get(self.tables@, k) is Some,
            |k: Seq<char>| assoc_get(self.tables@, k)->Some_0,
        )
    }

    /// An empty catalog.
    pub fn new() -> (r: SqlTables)
        ensures
            r.wf(),
            r.as_map() == Map::<Seq<char>, SqlFields>::empty(),
            r.tables@.len() == 0,
    {
        let r = SqlTables { tables: Vec::new() };
        proof {
            assert(r.as_map() =~= Map::<Seq<char>, SqlFields>::empty());
        }
        r
    }

    /// The index of the entry registered under `table_name`, if any.
    fn find(&self, table_name: &str) -> (r: Option<usize>)
        ensures
            match r {
                Some(i) => i < self.tables@.len() && self.tables@[i as int].0@ == table_name@
                    && (forall|j: int|
                    0 <= j < i ==> (#[trigger] self.tables@[j].0@) != table_name@),
                None => forall|j: int|
                    0 <= j < self.tables@.len() ==> (#[trigger] self.tables@[j].0@)
                        != table_name@,
            },
    {
        let mut i: usize = 0;
        while i < self.tables.len()
            invariant
                i <= self.tables@.len(),
                forall|j: int| 0 <= j < i ==> (#[trigger] self.tables@[j].0@) != table_name@,
            decreases self.tables@.len() - i,
        {
            if str_eq(self.tables[i].0.as_str(), table_name) {
                return Some(i);
            }
            i = i + 1;
        }
        None
    }

    /// Inserts the field collection under `table_name`; an existing entry is
    /// fully replaced (last write wins), without raising a duplicate error.
    pub fn register(&mut self, table_name: std::string::String, fields: SqlFields)
        requires
            old(self).wf(),
        ensures
            final(self).wf(),
            final(self).as_map() == old(self).as_map().insert(table_name@, fields),
    {
        let ghost s0 = self.tables@;
        let found = self.find(table_name.as_str());
        if let Some(i) = found {
            let _ = self.tables.remove(i);
            self.tables.insert(i, (table_name, fields));
            proof {
                let p = (table_name, fields);
                s0.remove_ensures(i as int);
                s0.remove(i as int).insert_ensures(i as int, p);
                assert(self.tables@ =~= s0.update(i as int, p));
                assert forall|x: int, y: int|
                    0 <= x < y < self.tables@.len() implies (#[trigger] self.tables@[x].0@) != (
                #[trigger] self.tables@[y].0@) by {
                    assert(self.tables@[x].0@ == s0[x].0@);
                    assert(self.tables@[y].0@ == s0[y].0@);
                }
                assert forall|k: Seq<char>| #[trigger] assoc_get(self.tables@, k) == (if k
                    == table_name@ {
                    Some(fields)
                } else {
                    assoc_get(s0, k)
                }) by {
                    lemma_assoc_update(s0, i as int, p, k);
                }
                assert(self.as_map() =~= old(self).as_map().insert(table_name@, fields));
            }
            return ;
        }
        self.tables.push((table_name, fields));
        proof {
            let p = (table_name, fields);
            s0.insert_ensures(s0.len() as int, p);
            assert(self.tables@ =~= s0.insert(s0.len() as int, p));
            assert forall|x: int, y: int|
                0 <= x < y < self.tables@.len() implies (#[trigger] self.tables@[x].0@) != (
            #[trigger] self.tables@[y].0@) by {
                if y < s0.len() {
                    assert(self.tables@[x] == s0[x] && self.tables@[y] == s0[y]);
                } else {
                    assert(self.tables@[x] == s0[x] && self.tables@[y] == p);
                }
            }
            assert forall|k: Seq<char>| #[trigger] assoc_get(self.tables@, k) == (if k
                == table_name@ {
                Some(fields)
            } else {
                assoc_get(s0, k)
            }) by {
                lemma_assoc_insert(s0, s0.len() as int, p, k);
            }
            assert(self.as_map() =~= old(self).as_map().insert(table_name@, fields));
        }
    }

    /// Returns the field collection registered under `table_name`, or `None`
    /// when no such table exists: the "table not found" condition.
    pub fn lookup(&self, table_name: &str) -> (r: Option<&SqlFields>)
        ensures
            match r {
                Some(f) => self.as_map().contains_key(table_name@) && self.as_map()[table_name@]
                    == *f,
                None => !self.as_map().contains_key(table_name@),
            },
    {
        match self.find(table_name) {
            Some(i) => {
                proof {
                    lemma_assoc_found(self.tables@, i as int, table_name@);
                }
                Some(&self.tables[i].1)
            },
            None => {
                proof {
                    lemma_assoc_none(self.tables@, table_name@);
                }
                None
            },
        }
    }

    /// The full catalog, one entry per registered table, for downstream
    /// consumption.
    pub fn enumerate(&self) -> (r: &Vec<(std::string::String, SqlFields)>)
        ensures
            r@ == self.tables@,
    {
        &self.tables
    }
}

/// Registering a table and then looking it up returns exactly the field
/// collection that was registered (round trip), for any prior catalog; in
/// particular a well-formed collection comes back still sorted by field name.
pub proof fn lemma_register_round_trip(
    catalog: Map<Seq<char>, SqlFields>,
    table_name: Seq<char>,
    fields: SqlFields,
)
    ensures
        catalog.insert(table_name, fields).contains_key(table_name),
        catalog.insert(table_name, fields)[table_name] == fields,
        fields.wf() ==> catalog.insert(table_name, fields)[table_name].wf(),
{
}

/// A well-formed field collection's enumeration order is determined by its
/// contents alone: two collections holding the same name-to-type map
/// enumerate the same field names, in the same sorted order, with the same
/// types: independent of the insertion order that built them.
pub proof fn lemma_enumeration_canonical(f1: SqlFields, f2: SqlFields)
    requires
        f1.wf(),
        f2.wf(),
        f1.as_map() == f2.as_map(),
    ensures
        entry_views(f1.fields@) == entry_views(f2.fields@),
{
    assert forall|k: Seq<char>| #[trigger] assoc_get(f1.fields@, k) == assoc_get(
        f2.fields@,
        k,
    ) by {
        if assoc_get(f1.fields@, k) is Some {
            assert(f1.as_map().contains_key(k));
            assert(f2.as_map().contains_key(k));
            assert(f1.as_map()[k] == assoc_get(f1.fields@, k)->Some_0);
            assert(f2.as_map()[k] == assoc_get(f2.fields@, k)->Some_0);
        } else {
            assert(!f1.as_map().contains_key(k));
            assert(!f2.as_map().contains_key(k));
        }
    }
    lemma_sorted_unique_repr(f1.fields@, f2.fields@);
}

/// Registering the same table twice leaves only the second field collection:
/// the first registration is fully replaced.
pub proof fn lemma_register_overwrite(
    catalog: Map<Seq<char>, SqlFields>,
    table_name: Seq<char>,
    first: SqlFields,
    second: SqlFields,
)
    ensures
        catalog.insert(table_name, first).insert(table_name, second)[table_name] == second,
        catalog.insert(table_name, first).insert(table_name, second) == catalog.insert(
            table_name,
            second,
        ),
{
    assert(catalog.insert(table_name, first).insert(table_name, second) =~= catalog.insert(
        table_name,
        second,
    ));
}

} // verus!
