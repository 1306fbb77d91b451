use vstd::prelude::*;

use crate::strutil::str_eq;

verus! {

/// One language known to the configuration: where its grammar module lives,
/// its canonical name, the file extension it claims, and the node-kind names
/// that count as comments. Immutable once loaded.
pub struct KnownLanguage {
    pub path: String,
    pub language: String,
    pub extension: String,
    pub comment_types: Vec<String>,
}

impl KnownLanguage {
    pub fn new() -> (r: KnownLanguage)
        ensures
            r.path@ =~= Seq::<char>::empty(),
            r.language@ =~= Seq::<char>::empty(),
            r.extension@ =~= Seq::<char>::empty(),
            r.comment_types@ =~= Seq::<String>::empty(),
    {
        KnownLanguage {
            path: String::new(),
            language: String::new(),
            extension: String::new(),
            comment_types: Vec::new(),
        }
    }
}

/// The table of known languages, in insertion order. Lookups by name and by
/// extension both return the first entry that matches, so on duplicate keys
/// the earliest entry wins.
pub struct Config {
    known_languages: Vec<(String, KnownLanguage)>,
}

/// The first language in `entries` whose key equals `name`, if any.
pub open spec fn lookup_by_name(
    entries: Seq<(String, KnownLanguage)>,
    name: Seq<char>,
) -> Option<KnownLanguage>
    decreases entries.len(),
{
    if entries.len() == 0 {
        None
    } else if entries[0].0@ == name {
        Some(entries[0].1)
    } else {
        lookup_by_name(entries.drop_first(), name)
    }
}

/// The first language in `entries` whose extension field equals `ext`, if any.
pub open spec fn lookup_by_extension(
    entries: Seq<(String, KnownLanguage)>,
    ext: Seq<char>,
) -> Option<KnownLanguage>
    decreases entries.len(),
{
    if entries.len() == 0 {
        None
    } else if entries[0].1.extension@ == ext {
        Some(entries[0].1)
    } else {
        lookup_by_extension(entries.drop_first(), ext)
    }
}

impl Config {
    /// The entries of the table, in insertion order.
    pub closed spec fn entries(&self) -> Seq<(String, KnownLanguage)> {
        self.known_languages@
    }

    pub fn new() -> (r: Config)
        ensures
            r.entries() =~= Seq::<(String, KnownLanguage)>::empty(),
    {
        Config { known_languages: Vec::new() }
    }

    /// Appends an entry. An entry added later never shadows an earlier one
    /// with the same key: lookups return the first match.
    pub fn insert(&mut self, name: String, lang: KnownLanguage)
        ensures
            final(self).entries() =~= old(self).entries().push((name, lang)),
    {
        self.known_languages.push((name, lang));
    }

    pub fn get(&self, name: &str) -> (r: Option<&KnownLanguage>)
        ensures
            match r {
                Some(kl) => lookup_by_name(self.entries(), name@) == Some(*kl),
                None => lookup_by_name(self.entries(), name@) is None,
            },
    {
        let n = self.known_languages.len();
        proof {
            assert(self.entries().skip(0) =~= self.entries());
        }
        for i in 0..n
            invariant
                n == self.known_languages.len(),
                lookup_by_name(self.entries(), name@) == lookup_by_name(
                    self.entries().skip(i as int),
                    name@,
                ),
        {
            proof {
                assert(self.entries().skip(i as int)[0] == self.known_languages@[i as int]);
            }
            if str_eq(self.known_languages[i].0.as_str(), name) {
                return Some(&self.known_languages[i].1);
            }
            proof {
                assert(self.entries().skip(i as int).drop_first() =~= self.entries().skip(
                    i as int + 1,
                ));
            }
        }
        None
    }

    pub fn find_struct_by_key(&self, extension: &str) -> (r: Option<&KnownLanguage>)
        ensures
            match r {
                Some(kl) => lookup_by_extension(self.entries(), extension@) == Some(*kl),
                None => lookup_by_extension(self.entries(), extension@) is None,
            },
    {
        let n = self.known_languages.len();
        proof {
            assert(self.entries().skip(0) =~= self.entries());
        }
        for i in 0..n
            invariant
                n == self.known_languages.len(),
                lookup_by_extension(self.entries(), extension@) == lookup_by_extension(
                    self.entries().skip(i as int),
                    extension@,
                ),
        {
            proof {
                assert(self.entries().skip(i as int)[0] == self.known_languages@[i as int]);
            }
            if str_eq(self.known_languages[i].1.extension.as_str(), extension) {
                return Some(&self.known_languages[i].1);
            }
            proof {
                assert(self.entries().skip(i as int).drop_first() =~= self.entries().skip(
                    i as int + 1,
                ));
            }
        }
        None
    }
}

} // verus!
