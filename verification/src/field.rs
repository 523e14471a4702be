//! A token field of an index: the keyspaces that hold it and the keys within them.
use crate::bytes::{be_bytes, be_value, lemma_be_bytes, push_be, read_be};
use crate::features::TokenFieldFeatures;
use crate::stats::DocId;
use vstd::prelude::*;

verus! {

/// The byte between the parts of a key.
pub const SEPARATOR: u8 = 58;

/// The three parts of a field, each in a keyspace of its own.
#[derive(Debug, Copy, Clone, PartialEq, Eq, Structural)]
pub enum Section {
    /// One statistics entry per token.
    Stats,
    /// The blocks of the document posting lists.
    DocPl,
    /// The positions of a token within a document.
    PosPl,
}

impl Section {
    /// What the section is called within the name of a keyspace.
    pub open spec fn spec_label(self) -> Seq<char> {
        match self {
            Section::Stats => "stats"@,
            Section::DocPl => "docpl"@,
            Section::PosPl => "pospl"@,
        }
    }

    pub fn label(&self) -> (r: &'static str)
        ensures
            r@ == self.spec_label(),
    {
        match self {
            Section::Stats => "stats",
            Section::DocPl => "docpl",
            Section::PosPl => "pospl",
        }
    }
}

/// The name of the keyspace that holds a section of a field: index, field and section with dots
/// between them.
pub open spec fn spec_keyspace_name(
    index: Seq<char>,
    name: Seq<char>,
    section: Section,
) -> Seq<char> {
    index + "."@ + name + "."@ + section.spec_label()
}

pub fn keyspace_name(index: &str, name: &str, section: Section) -> (r: String)
    ensures
        r@ == spec_keyspace_name(index@, name@, section),
{
    let mut s: String = String::new();
    s.append(index);
    s.append(".");
    s.append(name);
    s.append(".");
    s.append(section.label());
    assert(s@ =~= spec_keyspace_name(index@, name@, section));
    s
}

/// The key of a token's statistics.
pub open spec fn spec_stats_key(name: Seq<u8>, token: Seq<u8>) -> Seq<u8> {
    name + seq![SEPARATOR] + token
}

/// What the keys of all the blocks of a token begin with.
pub open spec fn pl_front(name: Seq<u8>, token: Seq<u8>) -> Seq<u8> {
    name + seq![SEPARATOR] + token + seq![SEPARATOR]
}

/// The key of the block of a token whose first document is `first_docid`.
pub open spec fn spec_pl_key(name: Seq<u8>, token: Seq<u8>, first_docid: DocId) -> Seq<u8> {
    pl_front(name, token) + be_bytes(first_docid)
}

/// The key of the positions of a token within a document.
pub open spec fn spec_pospl_key(name: Seq<u8>, docid: DocId, token: Seq<u8>) -> Seq<u8> {
    be_bytes(docid) + seq![SEPARATOR] + name + seq![SEPARATOR] + token
}

/// The document that the key of a block ends with.
pub open spec fn spec_key_docid(key: Seq<u8>) -> Option<DocId> {
    if key.len() >= 12 && key[key.len() - 9] == SEPARATOR {
        Some(be_value(key.skip(key.len() - 8)) as u64)
    } else {
        None
    }
}

fn push_all(key: &mut Vec<u8>, part: &[u8])
    ensures
        final(key)@ == old(key)@ + part@,
{
    key.extend_from_slice(part);
    assert(key@ =~= old(key)@ + part@);
}

/// A field whose values are broken into tokens: its name, what it records, and the names of the
/// keyspaces that hold it.
pub struct TokenFieldIndex {
    name: String,
    features: TokenFieldFeatures,
    stats_keyspace: String,
    docpl_keyspace: String,
    pospl_keyspace: Option<String>,
}

impl TokenFieldIndex {
    /// The name of the field as it stands in keys.
    pub closed spec fn name_bytes(self) -> Seq<u8> {
        vstd::utf8::encode_utf8(self.name@)
    }

    pub closed spec fn spec_features(self) -> TokenFieldFeatures {
        self.features
    }

    /// The name of the keyspace that holds a section, if the field has that section.
    pub closed spec fn spec_keyspace(self, section: Section) -> Option<Seq<char>> {
        match section {
            Section::Stats => Some(self.stats_keyspace@),
            Section::DocPl => Some(self.docpl_keyspace@),
            Section::PosPl => match self.pospl_keyspace {
                Some(s) => Some(s@),
                None => None,
            },
        }
    }

    /// A field called `name` of the index `index`. Statistics and documents always have a
    /// keyspace; positions have one only where the field records them.
    pub fn new(index: &str, name: &str, features: TokenFieldFeatures) -> (r: Self)
        ensures
            r.name_bytes() == vstd::utf8::encode_utf8(name@),
            r.spec_features() == features,
            r.spec_keyspace(Section::Stats) == Some(
                spec_keyspace_name(index@, name@, Section::Stats),
            ),
            r.spec_keyspace(Section::DocPl) == Some(
                spec_keyspace_name(index@, name@, Section::DocPl),
            ),
            r.spec_keyspace(Section::PosPl) == (if features is WithPositions {
                Some(spec_keyspace_name(index@, name@, Section::PosPl))
            } else {
                None
            }),
    {
        let stats_keyspace = keyspace_name(index, name, Section::Stats);
        let docpl_keyspace = keyspace_name(index, name, Section::DocPl);
        let pospl_keyspace = if features == TokenFieldFeatures::WithPositions {
            Some(keyspace_name(index, name, Section::PosPl))
        } else {
            None
        };
        TokenFieldIndex {
            name: name.to_owned(),
            features,
            stats_keyspace,
            docpl_keyspace,
            pospl_keyspace,
        }
    }

    pub fn features(&self) -> (r: TokenFieldFeatures)
        ensures
            r == self.spec_features(),
    {
        self.features
    }

    /// The name of the keyspace that holds `section`, or `None` if the field has no such section.
    pub fn keyspace(&self, section: Section) -> (r: Option<&str>)
        ensures
            match r {
                Some(s) => self.spec_keyspace(section) == Some(s@),
                None => self.spec_keyspace(section) is None,
            },
    {
        match section {
            Section::Stats => Some(self.stats_keyspace.as_str()),
            Section::DocPl => Some(self.docpl_keyspace.as_str()),
            Section::PosPl => match &self.pospl_keyspace {
                Some(s) => Some(s.as_str()),
                None => None,
            },
        }
    }

    pub fn stats_key(&self, token: &[u8]) -> (key: Vec<u8>)
        ensures
            key@ == spec_stats_key(self.name_bytes(), token@),
            key@ == self.name_bytes() + seq![58u8] + token@,
    {
        let mut key: Vec<u8> = Vec::new();
        push_all(&mut key, self.name.as_str().as_bytes());
        key.push(SEPARATOR);
        push_all(&mut key, token);
        assert(key@ =~= spec_stats_key(self.name_bytes(), token@));
        key
    }

    pub fn pl_key(&self, token: &[u8], first_docid: DocId) -> (key: Vec<u8>)
        ensures
            key@ == spec_pl_key(self.name_bytes(), token@, first_docid),
            key@ == self.name_bytes() + seq![58u8] + token@ + seq![58u8] + be_bytes(first_docid),
    {
        let mut key: Vec<u8> = Vec::new();
        push_all(&mut key, self.name.as_str().as_bytes());
        key.push(SEPARATOR);
        push_all(&mut key, token);
        key.push(SEPARATOR);
        assert(key@ =~= pl_front(self.name_bytes(), token@));
        push_be(&mut key, first_docid);
        key
    }

    pub fn pospl_key(&self, docid: DocId, token: &[u8]) -> (key: Vec<u8>)
        ensures
            key@ == spec_pospl_key(self.name_bytes(), docid, token@),
            key@ == be_bytes(docid) + seq![58u8] + self.name_bytes() + seq![58u8] + token@,
    {
        let mut key: Vec<u8> = Vec::new();
        push_be(&mut key, docid);
        key.push(SEPARATOR);
        push_all(&mut key, self.name.as_str().as_bytes());
        key.push(SEPARATOR);
        push_all(&mut key, token);
        assert(key@ =~= spec_pospl_key(self.name_bytes(), docid, token@));
        key
    }

    /// The document that the key of a block ends with, or `None` if `key` is no such key.
    pub fn pl_key_extract_docid(key: &[u8]) -> (r: Option<DocId>)
        ensures
            r == spec_key_docid(key@),
            r is Some <==> key@.len() >= 12 && key@[key@.len() - 9] == 58,
            r matches Some(docid) ==> docid == be_value(key@.skip(key@.len() - 8)),
    {
        // Field name and token text must be at least, plus separators and the docid: 2+2+8=12
        if key.len() < 12 {
            return None;
        }
        // The byte before the start of the docid must be the separator.
        let docid_start: usize = key.len() - 8;
        if key[docid_start - 1] == SEPARATOR {
            assert(key@.skip(docid_start as int) =~= key@.subrange(
                docid_start as int,
                docid_start + 8,
            ));
            Some(read_be(key, docid_start))
        } else {
            None
        }
    }
}

/// The document in the key of a block can be read back from the key, as long as field name and
/// token are not too short together.
pub proof fn lemma_key_docid(name: Seq<u8>, token: Seq<u8>, docid: DocId)
    requires
        name.len() + token.len() >= 2,
    ensures
        spec_key_docid(spec_pl_key(name, token, docid)) == Some(docid),
{
    let key = spec_pl_key(name, token, docid);
    lemma_be_bytes(docid);
    assert(key.skip(key.len() - 8) =~= be_bytes(docid));
}

} // verus!
