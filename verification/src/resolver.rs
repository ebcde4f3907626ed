use vstd::prelude::*;

use crate::error::RosPeekError;
use crate::schema::{MessageSchema, SpecSchema, parse_idl_to_schema, spec_parse_idl, idl_fields};
use crate::text::{split_on, first_idx, lemma_first_idx, str_eq};

verus! {

// --- Definition sources ----------------------------------------------------

/// One interface-definition source: the text that defines message type
/// `name` of package `package`.
#[derive(Debug, Clone)]
pub struct IdlEntry {
    pub package: String,
    pub name: String,
    pub text: String,
}

/// The definition sources found under one base search directory.
#[derive(Debug, Clone)]
pub struct SearchDir {
    pub entries: Vec<IdlEntry>,
}

/// Locates and parses interface definitions for message type names.
///
/// The search locations are supplied explicitly at construction — an
/// ordered list of directories, each holding its definition sources as
/// plain values — so resolution is deterministic and needs no process
/// environment.
#[derive(Debug, Clone)]
pub struct SchemaResolver {
    pub dirs: Vec<SearchDir>,
}

pub struct SpecEntry {
    pub package: Seq<char>,
    pub name: Seq<char>,
    pub text: Seq<char>,
}

impl View for IdlEntry {
    type V = SpecEntry;

    open spec fn view(&self) -> SpecEntry {
        SpecEntry { package: self.package@, name: self.name@, text: self.text@ }
    }
}

impl View for SearchDir {
    type V = Seq<SpecEntry>;

    open spec fn view(&self) -> Seq<SpecEntry> {
        Seq::new(self.entries@.len(), |i: int| self.entries@[i]@)
    }
}

impl View for SchemaResolver {
    type V = Seq<Seq<SpecEntry>>;

    open spec fn view(&self) -> Seq<Seq<SpecEntry>> {
        Seq::new(self.dirs@.len(), |i: int| self.dirs@[i]@)
    }
}

// --- Resolution, abstractly ------------------------------------------------

/// Whether a type name has the resolvable shape: at least the three
/// components `package/category/name`, with category `msg`.
pub open spec fn name_parts_ok(tn: Seq<char>) -> bool {
    let p = split_on(tn, '/');
    p.len() >= 3 && p[1] == "msg"@
}

/// The first entry of `d` that defines `nm` of package `pkg`.
pub open spec fn dir_find(d: Seq<SpecEntry>, pkg: Seq<char>, nm: Seq<char>) -> Option<SpecEntry>
    decreases d.len(),
{
    if d.len() == 0 {
        None
    } else if d[0].package == pkg && d[0].name == nm {
        Some(d[0])
    } else {
        dir_find(d.drop_first(), pkg, nm)
    }
}

/// The definition found in the first directory that has one.
pub open spec fn dirs_find(dirs: Seq<Seq<SpecEntry>>, pkg: Seq<char>, nm: Seq<char>) -> Option<
    SpecEntry,
>
    decreases dirs.len(),
{
    if dirs.len() == 0 {
        None
    } else if dir_find(dirs[0], pkg, nm) is Some {
        dir_find(dirs[0], pkg, nm)
    } else {
        dirs_find(dirs.drop_first(), pkg, nm)
    }
}

/// The schema that resolving `tn` against `dirs` yields, if any: the type
/// name must have the resolvable shape and some directory must hold a
/// definition; the definition is then parsed. There is no default schema.
pub open spec fn spec_resolve(dirs: Seq<Seq<SpecEntry>>, tn: Seq<char>) -> Option<SpecSchema> {
    if !name_parts_ok(tn) {
        None
    } else {
        let p = split_on(tn, '/');
        match dirs_find(dirs, p[0], p[2]) {
            Some(e) => Some(spec_parse_idl(e.text, tn)),
            None => None,
        }
    }
}

// --- Resolution, executably ------------------------------------------------

/// First position of `c` in `s` at or after `from`, or the length.
fn find_char_from(s: &str, c: char, from: usize) -> (r: usize)
    requires
        from <= s@.len(),
    ensures
        from <= r <= s@.len(),
        forall|k: int| from <= k < r ==> s@[k] != c,
        r < s@.len() ==> s@[r as int] == c,
{
    let n = s.unicode_len();
    let mut i: usize = from;
    while i < n && !(s.get_char(i) == c)
        invariant
            from <= i <= n == s@.len(),
            forall|k: int| from <= k < i ==> s@[k] != c,
        decreases n - i,
    {
        i = i + 1;
    }
    i
}

impl SchemaResolver {
    /// A resolver over the given ordered search directories.
    pub fn new(dirs: Vec<SearchDir>) -> (r: SchemaResolver)
        ensures
            r.dirs == dirs,
    {
        SchemaResolver { dirs }
    }

    /// A resolver with no search directories: every lookup fails.
    pub fn empty() -> (r: SchemaResolver)
        ensures
            r@ == Seq::<Seq<SpecEntry>>::empty(),
    {
        let r = SchemaResolver { dirs: Vec::new() };
        proof {
            assert(r@ =~= Seq::<Seq<SpecEntry>>::empty());
        }
        r
    }

    /// A deep copy of this resolver, equal in the abstract.
    pub fn duplicate(&self) -> (r: SchemaResolver)
        ensures
            r@ == self@,
    {
        let mut dirs: Vec<SearchDir> = Vec::new();
        let nd = self.dirs.len();
        for di in 0..nd
            invariant
                nd == self.dirs.len(),
                dirs@.len() == di,
                forall|k: int| 0 <= k < di ==> #[trigger] dirs@[k]@ == self.dirs@[k]@,
        {
            let src_dir = &self.dirs[di];
            let mut entries: Vec<IdlEntry> = Vec::new();
            let ne = src_dir.entries.len();
            for ei in 0..ne
                invariant
                    ne == src_dir.entries.len(),
                    entries@.len() == ei,
                    forall|k: int| 0 <= k < ei ==> #[trigger] entries@[k]@ == src_dir.entries@[k]@,
            {
                let e = &src_dir.entries[ei];
                entries.push(
                    IdlEntry {
                        package: e.package.clone(),
                        name: e.name.clone(),
                        text: e.text.clone(),
                    },
                );
            }
            let d = SearchDir { entries };
            proof {
                assert(d@ =~= src_dir@);
            }
            dirs.push(d);
        }
        let r = SchemaResolver { dirs };
        proof {
            assert(r@ =~= self@);
        }
        r
    }

    /// Resolves `typename` to its schema, or reports that no definition
    /// source exists for it under the configured search locations.
    pub fn resolve(&self, typename: &str) -> (r: Result<MessageSchema, RosPeekError>)
        ensures
            match r {
                Ok(s) => spec_resolve(self@, typename@) == Some(s@),
                Err(e) => spec_resolve(self@, typename@) is None && (e matches
                    RosPeekError::IdlNotFound(s) && s@ == typename@),
            },
    {
        let n = typename.unicode_len();
        let ghost tns = typename@;
        // Split out the first three `/`-separated components.
        let j0 = find_char_from(typename, '/', 0);
        proof {
            lemma_first_idx(tns, '/', j0 as int);
        }
        if j0 == n {
            // A single component: not a resolvable name.
            return Err(RosPeekError::IdlNotFound(typename.to_owned()));
        }
        let ghost rest1 = tns.skip(j0 + 1);
        let j1 = find_char_from(typename, '/', j0 + 1);
        proof {
            assert(forall|k: int| 0 <= k < j1 - j0 - 1 ==> rest1[k] != '/');
            if j1 < n {
                assert(rest1[j1 - j0 - 1] == '/');
            }
            lemma_first_idx(rest1, '/', j1 - j0 - 1);
        }
        if j1 == n {
            // Two components: not a resolvable name.
            proof {
                assert(split_on(rest1, '/') == seq![rest1]);
                assert(split_on(tns, '/') == seq![tns.take(j0 as int)] + split_on(rest1, '/'));
                assert(split_on(tns, '/').len() == 2);
            }
            return Err(RosPeekError::IdlNotFound(typename.to_owned()));
        }
        let ghost rest2 = tns.skip(j1 + 1);
        let j2 = find_char_from(typename, '/', j1 + 1);
        proof {
            assert(forall|k: int| 0 <= k < j2 - j1 - 1 ==> rest2[k] != '/');
            if j2 < n {
                assert(rest2[j2 - j1 - 1] == '/');
            }
            lemma_first_idx(rest2, '/', j2 - j1 - 1);
            let p2 = split_on(rest2, '/');
            if j2 == n {
                assert(p2 == seq![rest2]);
                assert(rest2.take(j2 - j1 - 1) =~= rest2);
            } else {
                assert(p2 == seq![rest2.take(j2 - j1 - 1)] + split_on(rest2.skip(j2 - j1), '/'));
            }
            assert(p2[0] == rest2.take(j2 - j1 - 1));
            assert(p2.len() >= 1);
            assert(rest1.take(j1 - j0 - 1) =~= tns.subrange(j0 + 1, j1 as int));
            assert(rest1.skip(j1 - j0) =~= rest2);
            assert(rest2.take(j2 - j1 - 1) =~= tns.subrange(j1 + 1, j2 as int));
            let p1 = split_on(rest1, '/');
            assert(p1 == seq![rest1.take(j1 - j0 - 1)] + p2);
            let p = split_on(tns, '/');
            assert(p == seq![tns.take(j0 as int)] + p1);
            assert(p.len() >= 3);
            assert(p[0] == tns.take(j0 as int));
            assert(p[1] == tns.subrange(j0 + 1, j1 as int));
            assert(p[2] == tns.subrange(j1 + 1, j2 as int));
        }
        let category = typename.substring_char(j0 + 1, j1);
        proof {
            assert(category@ =~= tns.subrange(j0 + 1, j1 as int));
        }
        if !str_eq(category, "msg") {
            return Err(RosPeekError::IdlNotFound(typename.to_owned()));
        }
        let package = typename.substring_char(0, j0);
        let msg_name = typename.substring_char(j1 + 1, j2);
        proof {
            assert(package@ =~= tns.take(j0 as int));
            assert(msg_name@ =~= tns.subrange(j1 + 1, j2 as int));
        }
        // Search the directories in order; the first hit wins.
        let nd = self.dirs.len();
        proof {
            assert(self@.skip(0) =~= self@);
        }
        for di in 0..nd
            invariant
                nd == self.dirs.len(),
                tns == typename@,
                package@ == split_on(tns, '/')[0],
                msg_name@ == split_on(tns, '/')[2],
                name_parts_ok(tns),
                dirs_find(self@, package@, msg_name@) == dirs_find(
                    self@.skip(di as int),
                    package@,
                    msg_name@,
                ),
        {
            let dir = &self.dirs[di];
            let ne = dir.entries.len();
            proof {
                assert(self@.skip(di as int)[0] == self@[di as int]);
                assert(self@.skip(di as int).drop_first() =~= self@.skip(di + 1));
                assert(dir@.skip(0) =~= dir@);
            }
            for ei in 0..ne
                invariant
                    nd == self.dirs.len(),
                    di < nd,
                    tns == typename@,
                    ne == dir.entries.len(),
                    dir@ == self@[di as int],
                    name_parts_ok(tns),
                    package@ == split_on(tns, '/')[0],
                    msg_name@ == split_on(tns, '/')[2],
                    dirs_find(self@, package@, msg_name@) == dirs_find(
                        self@.skip(di as int),
                        package@,
                        msg_name@,
                    ),
                    dir_find(self@[di as int], package@, msg_name@) == dir_find(
                        dir@.skip(ei as int),
                        package@,
                        msg_name@,
                    ),
            {
                proof {
                    assert(dir@.skip(ei as int)[0] == dir@[ei as int]);
                    assert(dir@.skip(ei as int).drop_first() =~= dir@.skip(ei + 1));
                }
                let entry = &dir.entries[ei];
                if str_eq(entry.package.as_str(), package) && str_eq(
                    entry.name.as_str(),
                    msg_name,
                ) {
                    proof {
                        assert(dir@[ei as int] == entry@);
                        assert(dir_find(dir@.skip(ei as int), package@, msg_name@) == Some(
                            dir@[ei as int],
                        ));
                        assert(dir_find(self@[di as int], package@, msg_name@) == Some(entry@));
                        assert(self@.skip(di as int)[0] == self@[di as int]);
                        assert(dirs_find(self@.skip(di as int), package@, msg_name@) == Some(
                            entry@,
                        ));
                        assert(dirs_find(self@, package@, msg_name@) == Some(entry@));
                    }
                    let text = entry.text.as_str();
                    proof {
                        assert(text@ == entry.text@);
                    }
                    let schema = parse_idl_to_schema(text, typename);
                    proof {
                        assert(schema@.typename == tns);
                        assert(schema@.fields == idl_fields(entry.text@));
                        assert(schema@ == spec_parse_idl(entry.text@, tns));
                    }
                    return Ok(schema);
                }
            }
            proof {
                assert(dir@.skip(ne as int) =~= Seq::<SpecEntry>::empty());
            }
        }
        proof {
            assert(self@.skip(nd as int) =~= Seq::<Seq<SpecEntry>>::empty());
        }
        Err(RosPeekError::IdlNotFound(typename.to_owned()))
    }
}

} // verus!
