//! The command line: what a program is asked to do.

use vstd::prelude::*;
use vstd::string::*;

use crate::json::texts_of;
use crate::mesh::MeshArgs;
use crate::text::same;

verus! {

/// The word behind the first occurrence of a flag.
pub open spec fn flag_value(argv: Seq<Seq<char>>, flag: Seq<char>) -> Option<Seq<char>>
    decreases argv.len(),
{
    if argv.len() == 0 {
        None
    } else if argv[0] == flag {
        if argv.len() > 1 {
            Some(argv[1])
        } else {
            None
        }
    } else {
        flag_value(argv.skip(1), flag)
    }
}

/// Finds the word behind the first occurrence of a flag.
pub fn find_flag(argv: &[String], flag: &str) -> (r: Option<String>)
    ensures
        match r {
            Some(word) => flag_value(texts_of(argv@), flag@) == Some(word@),
            None => flag_value(texts_of(argv@), flag@) is None,
        },
{
    let ghost all = texts_of(argv@);
    let n = argv.len();
    let mut i: usize = 0;
    assert(all.skip(0) == all);
    while i < n
        invariant
            n == argv@.len(),
            i <= n,
            all == texts_of(argv@),
            flag_value(all, flag@) == flag_value(all.skip(i as int), flag@),
        decreases n - i,
    {
        assert(all.skip(i as int).skip(1) == all.skip(i + 1));
        assert(all[i as int] == argv@[i as int]@);
        if same(&argv[i], flag) {
            if i + 1 < n {
                assert(all[i + 1] == argv@[i + 1]@);
                return Some(argv[i + 1].clone());
            }
            return None;
        }
        i += 1;
    }
    None
}

/// The word behind a flag; without one, the empty word.
pub open spec fn flag_word(argv: Seq<Seq<char>>, flag: Seq<char>) -> Seq<char> {
    match flag_value(argv, flag) {
        Some(word) => word,
        None => Seq::empty(),
    }
}

fn find_word(argv: &[String], flag: &str) -> (r: String)
    ensures
        r@ == flag_word(texts_of(argv@), flag@),
{
    match find_flag(argv, flag) {
        Some(word) => word,
        None => String::new(),
    }
}

/// Reads what a mesh is started with. Without a root it is `blobs`.
pub fn mesh_args(argv: &[String]) -> (r: MeshArgs)
    ensures
        r.role@ == flag_word(texts_of(argv@), "--role"@),
        r.signal@ == flag_word(texts_of(argv@), "--signal"@),
        r.session@ == flag_word(texts_of(argv@), "--session"@),
        r.root@ == if flag_word(texts_of(argv@), "--root"@).len() == 0 {
            "blobs"@
        } else {
            flag_word(texts_of(argv@), "--root"@)
        },
{
    let root = find_word(argv, "--root");
    MeshArgs {
        role: find_word(argv, "--role"),
        signal: find_word(argv, "--signal"),
        session: find_word(argv, "--session"),
        root: if root.unicode_len() == 0 {
            "blobs".to_owned()
        } else {
            root
        },
    }
}

/// What the program is asked to do.
pub enum Command {
    /// Verify a package.
    Verify,
    /// Take part in a mesh.
    Mesh(MeshArgs),
    /// Serve blobs.
    Serve,
}

/// Reads what the program is asked to do: the first word says it, and without one that
/// is known the program serves.
pub fn command(argv: &[String]) -> (r: Command)
    ensures
        match r {
            Command::Verify => argv@.len() > 0 && argv@[0]@ == "verify"@,
            Command::Mesh(m) => {
                &&& argv@.len() > 0 && argv@[0]@ == "mesh"@
                &&& m.role@ == flag_word(texts_of(argv@), "--role"@)
                &&& m.signal@ == flag_word(texts_of(argv@), "--signal"@)
                &&& m.session@ == flag_word(texts_of(argv@), "--session"@)
                &&& m.root@ == if flag_word(texts_of(argv@), "--root"@).len() == 0 {
                    "blobs"@
                } else {
                    flag_word(texts_of(argv@), "--root"@)
                }
            },
            Command::Serve => argv@.len() == 0 || (argv@[0]@ != "verify"@ && argv@[0]@
                != "mesh"@),
        },
{
    if argv.len() > 0 && same(&argv[0], "verify") {
        Command::Verify
    } else if argv.len() > 0 && same(&argv[0], "mesh") {
        Command::Mesh(mesh_args(argv))
    } else {
        Command::Serve
    }
}

/// What a node serves: the root of its blobs, and where it listens.
pub struct Settings {
    pub root: String,
    pub addr: String,
}

/// The settings, with `blobs` for a root and all interfaces at port 9910 where nothing
/// else is set.
pub fn settings(root: Option<String>, addr: Option<String>) -> (r: Settings)
    ensures
        r.root@ == match root {
            Some(root) => root@,
            None => "blobs"@,
        },
        r.addr@ == match addr {
            Some(addr) => addr@,
            None => "0.0.0.0:9910"@,
        },
{
    Settings {
        root: match root {
            Some(root) => root,
            None => "blobs".to_owned(),
        },
        addr: match addr {
            Some(addr) => addr,
            None => "0.0.0.0:9910".to_owned(),
        },
    }
}

/// The word behind a flag is found wherever the flag first stands; where it stands last or
/// nowhere, there is none.
pub proof fn law_flag_is_found(
    before: Seq<Seq<char>>,
    flag: Seq<char>,
    word: Seq<char>,
    behind: Seq<Seq<char>>,
)
    requires
        !before.contains(flag),
    ensures
        flag_value(before + seq![flag, word] + behind, flag) == Some(word),
        flag_value(before + seq![flag], flag) is None,
        flag_value(before, flag) is None,
        flag_word(before + seq![flag, word] + behind, flag) == word,
        flag_word(before, flag).len() == 0,
    decreases before.len(),
{
    let a = before + seq![flag, word] + behind;
    let b = before + seq![flag];
    if before.len() == 0 {
        assert(a[0] == flag && a[1] == word);
        assert(b[0] == flag);
    } else {
        let rest = before.skip(1);
        assert(before.contains(before[0]));
        if rest.contains(flag) {
            let k = choose|k: int| 0 <= k < rest.len() && rest[k] == flag;
            assert(before[k + 1] == flag);
        }
        law_flag_is_found(rest, flag, word, behind);
        assert(a.skip(1) =~= rest + seq![flag, word] + behind);
        assert(b.skip(1) =~= rest + seq![flag]);
    }
}

} // verus!
