//! The servers through which two nodes find a way to each other: where their
//! list may lie, what it says, and what is used without one.

use vstd::prelude::*;
use vstd::string::*;
use vstd::utf8::*;

use crate::json::{
    array_model, json_parse, lemma_array_model, list_field, or_empty, parse_json, text_field,
    Json, JsonModel,
};

verus! {

/// One server.
pub struct IceServer {
    pub url: String,
    pub username: String,
    pub credential: String,
}

/// A server as mathematics.
pub struct IceModel {
    pub url: Seq<char>,
    pub username: Seq<char>,
    pub credential: Seq<char>,
}

impl View for IceServer {
    type V = IceModel;

    open spec fn view(&self) -> IceModel {
        IceModel { url: self.url@, username: self.username@, credential: self.credential@ }
    }
}

/// The servers as mathematics.
pub open spec fn servers_of(v: Seq<IceServer>) -> Seq<IceModel> {
    v.map_values(|s: IceServer| s@)
}

/// The files where the list may lie, those to be tried first before the others:
/// the one beside the program, if it is known where that is, then the one in the
/// current directory.
pub fn ice_files(beside: Option<String>) -> (r: Vec<String>)
    ensures
        r@.map_values(|s: String| s@) == match beside {
            Some(f) => seq![f@, "ice-servers.json"@, "/home/radxa/ice-servers.json"@],
            None => seq!["ice-servers.json"@, "/home/radxa/ice-servers.json"@],
        },
{
    let mut out: Vec<String> = Vec::new();
    if let Some(f) = beside {
        out.push(f);
    }
    out.push("ice-servers.json".to_owned());
    out.push("/home/radxa/ice-servers.json".to_owned());
    assert(out@.map_values(|s: String| s@) =~= match beside {
        Some(f) => seq![f@, "ice-servers.json"@, "/home/radxa/ice-servers.json"@],
        None => seq!["ice-servers.json"@, "/home/radxa/ice-servers.json"@],
    });
    out
}

/// The servers among these values: those with an address.
pub open spec fn servers_among(items: Seq<JsonModel>) -> Seq<IceModel>
    decreases items.len(),
{
    if items.len() == 0 {
        Seq::empty()
    } else {
        let rest = servers_among(items.drop_last());
        let last = items.last();
        match text_field(last, "urls"@) {
            Some(url) => rest.push(
                IceModel {
                    url,
                    username: or_empty(text_field(last, "username"@)),
                    credential: or_empty(text_field(last, "credential"@)),
                },
            ),
            None => rest,
        }
    }
}

/// The servers that a list names.
pub open spec fn servers_in(list: JsonModel) -> Seq<IceModel> {
    match list_field(list, "primary"@) {
        Some(items) => servers_among(items),
        None => Seq::empty(),
    }
}

/// Reads the servers that a list names.
pub fn read_servers(list: &Json) -> (r: Vec<IceServer>)
    ensures
        servers_of(r@) == servers_in(list.model()),
{
    let mut out: Vec<IceServer> = Vec::new();
    if let Some(items) = list.get_list("primary") {
        proof {
            lemma_array_model(items@);
        }
        let ghost all = array_model(items@);
        let mut i: usize = 0;
        assert(servers_of(out@) == servers_among(all.take(0)));
        while i < items.len()
            invariant
                i <= items@.len(),
                all == array_model(items@),
                all.len() == items@.len(),
                forall|k: int| 0 <= k < all.len() ==> #[trigger] all[k] == items@[k].model(),
                servers_of(out@) == servers_among(all.take(i as int)),
            decreases items@.len() - i,
        {
            let ghost before = out@;
            assert(all.take(i + 1).drop_last() == all.take(i as int));
            assert(all.take(i + 1).last() == items@[i as int].model());
            if let Some(url) = items[i].get_text("urls") {
                let s = IceServer {
                    url,
                    username: items[i].get_word("username"),
                    credential: items[i].get_word("credential"),
                };
                out.push(s);
                assert(servers_of(out@) == servers_of(before).push(s@));
            }
            i += 1;
        }
        assert(all.take(i as int) == all);
    }
    assert(servers_of(out@) == servers_in(list.model()));
    out
}

/// The servers in the text of a file; none in one that does not read.
pub open spec fn servers_told(text: Seq<char>) -> Seq<IceModel> {
    match json_parse(encode_utf8(text)) {
        Ok(list) => servers_in(list),
        Err(_) => Seq::empty(),
    }
}

/// The server that is used where no file names one.
pub open spec fn default_server() -> IceModel {
    IceModel {
        url: "stun:stun.l.google.com:19302"@,
        username: Seq::empty(),
        credential: Seq::empty(),
    }
}

/// The servers of the first file that names any, of the files that could be
/// read, in order; without one, the default.
pub open spec fn servers_from(files: Seq<Option<String>>) -> Seq<IceModel>
    decreases files.len(),
{
    if files.len() == 0 {
        seq![default_server()]
    } else {
        match files[0] {
            Some(text) => if servers_told(text@).len() > 0 {
                servers_told(text@)
            } else {
                servers_from(files.skip(1))
            },
            None => servers_from(files.skip(1)),
        }
    }
}

/// Chooses the servers from what the files hold.
pub fn ice_servers(files: &[Option<String>]) -> (r: Vec<IceServer>)
    ensures
        servers_of(r@) == servers_from(files@),
        r@.len() > 0,
{
    let mut i: usize = 0;
    assert(files@.skip(0) == files@);
    while i < files.len()
        invariant
            i <= files@.len(),
            servers_from(files@) == servers_from(files@.skip(i as int)),
        decreases files@.len() - i,
    {
        assert(files@.skip(i as int).skip(1) == files@.skip(i + 1));
        if let Some(text) = &files[i] {
            if let Ok(list) = parse_json(text.as_str().as_bytes()) {
                let found = read_servers(&list);
                if found.len() > 0 {
                    assert(servers_of(found@).len() == found@.len());
                    return found;
                }
                assert(servers_of(found@).len() == 0);
            }
        }
        i += 1;
    }
    let mut out: Vec<IceServer> = Vec::new();
    out.push(
        IceServer {
            url: "stun:stun.l.google.com:19302".to_owned(),
            username: String::new(),
            credential: String::new(),
        },
    );
    assert(servers_of(out@) =~= seq![default_server()]);
    out
}

/// The servers in two lists put together are those in the one and then those in the other.
pub proof fn law_servers_of_lists_join(a: Seq<JsonModel>, b: Seq<JsonModel>)
    ensures
        servers_among(a + b) == servers_among(a) + servers_among(b),
    decreases b.len(),
{
    if b.len() == 0 {
        assert(a + b =~= a);
        assert(servers_among(a) + servers_among(b) =~= servers_among(a));
    } else {
        law_servers_of_lists_join(a, b.drop_last());
        assert((a + b).drop_last() =~= a + b.drop_last());
        assert((a + b).last() == b.last());
        assert(servers_among(a + b) =~= servers_among(a) + servers_among(b));
    }
}

/// The text under a key, or the empty one.
pub open spec fn text_under(fields: Map<Seq<char>, JsonModel>, key: Seq<char>) -> Seq<char> {
    if fields.contains_key(key) && fields[key] is Text {
        fields[key]->Text_0
    } else {
        Seq::empty()
    }
}

/// An item gives a server where it has a text for its address, with the name and the word
/// that it asks for, or without; any other item gives none.
pub proof fn law_item_gives_a_server(fields: Map<Seq<char>, JsonModel>, m: JsonModel)
    ensures
        fields.contains_key("urls"@) && fields["urls"@] is Text ==> servers_among(
            seq![JsonModel::Object(fields)],
        ) == seq![
            (IceModel {
                url: fields["urls"@]->Text_0,
                username: text_under(fields, "username"@),
                credential: text_under(fields, "credential"@),
            }),
        ],
        !(fields.contains_key("urls"@) && fields["urls"@] is Text) ==> servers_among(
            seq![JsonModel::Object(fields)],
        ).len() == 0,
        !(m is Object) ==> servers_among(seq![m]).len() == 0,
{
    let one = seq![JsonModel::Object(fields)];
    assert(one.drop_last() =~= Seq::<JsonModel>::empty());
    assert(seq![m].drop_last() =~= Seq::<JsonModel>::empty());
    assert(servers_among(Seq::<JsonModel>::empty()) == Seq::<IceModel>::empty());
    if fields.contains_key("urls"@) && fields["urls"@] is Text {
        let server = IceModel {
            url: fields["urls"@]->Text_0,
            username: text_under(fields, "username"@),
            credential: text_under(fields, "credential"@),
        };
        assert(or_empty(text_field(one.last(), "username"@)) == server.username);
        assert(or_empty(text_field(one.last(), "credential"@)) == server.credential);
        assert(servers_among(one) =~= seq![server]);
    }
}

/// The servers of a file are those in the list under `primary`; where there is none, and
/// where the file does not read, there are none.
pub proof fn law_servers_of_a_file(
    text: Seq<char>,
    fields: Map<Seq<char>, JsonModel>,
    items: Seq<JsonModel>,
    e: Seq<char>,
)
    ensures
        json_parse(encode_utf8(text)) == Ok::<JsonModel, Seq<char>>(JsonModel::Object(fields))
            && fields.contains_key("primary"@) && fields["primary"@] == JsonModel::Array(items)
            ==> servers_told(text) == servers_among(items),
        json_parse(encode_utf8(text)) == Ok::<JsonModel, Seq<char>>(JsonModel::Object(fields)) && !(
        fields.contains_key("primary"@) && fields["primary"@] is Array) ==> servers_told(text).len()
            == 0,
        json_parse(encode_utf8(text)) == Err::<JsonModel, Seq<char>>(e) ==> servers_told(text).len()
            == 0,
{
}

/// The first file that names any servers is used, with all of them, and none behind it is
/// looked at; where no file names any, there is the one default server.
pub proof fn law_first_file_with_servers_is_used(
    before: Seq<Option<String>>,
    text: String,
    behind: Seq<Option<String>>,
)
    requires
        forall|i: int|
            0 <= i < before.len() ==> match #[trigger] before[i] {
                Some(t) => servers_told(t@).len() == 0,
                None => true,
            },
    ensures
        servers_told(text@).len() > 0 ==> servers_from(before + seq![Some(text)] + behind)
            == servers_told(text@),
        servers_from(before) == seq![
            (IceModel {
                url: "stun:stun.l.google.com:19302"@,
                username: Seq::empty(),
                credential: Seq::empty(),
            }),
        ],
    decreases before.len(),
{
    let files = before + seq![Some(text)] + behind;
    if before.len() == 0 {
        assert(files[0] == Some(text));
    } else {
        let rest = before.skip(1);
        assert forall|i: int| 0 <= i < rest.len() implies match #[trigger] rest[i] {
            Some(t) => servers_told(t@).len() == 0,
            None => true,
        } by {
            assert(rest[i] == before[i + 1]);
        }
        assert(files[0] == before[0]);
        assert(files.skip(1) =~= rest + seq![Some(text)] + behind);
        law_first_file_with_servers_is_used(rest, text, behind);
    }
}

} // verus!
