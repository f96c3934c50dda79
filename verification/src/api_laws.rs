//! What the public functions give, told by what they are called with and what comes
//! back. Each law speaks of a call, by the contract of the function itself.

use vstd::prelude::*;
use vstd::utf8::*;

use crate::announce;
use crate::announce::announce_app_data;
use crate::announce::announce_header;
use crate::announce::announce_plan;
use crate::announce::AnnounceHeader;
use crate::announce::AnnouncePlan;
use crate::announce::build_nomad_announce_packet;
use crate::budget::RequestBudget;
use crate::budget::RequestPermit;
use crate::components;
use crate::content_laws;
use crate::disk;
use crate::disk::Disk;
use crate::disk::Faults;
use crate::error::ErrorView;
use crate::error::NomadError;
use crate::field_map::FieldMap;
use crate::fs::FsReply;
use crate::fs::FsRequest;
use crate::listing;
use crate::listing::ListReply;
use crate::listing::ListRequest;
use crate::listing::ListStep;
use crate::listing::ListTask;
use crate::micron;
use crate::micron::default_index_page;
use crate::micron::not_found_page;
use crate::micron::sanitize_micron_text;
use crate::names;
use crate::names::clamp_display_name;
use crate::node;
use crate::node::DropReason;
use crate::node::NomadNode;
use crate::node::NomadNodeConfig;
use crate::node::RequestOutcome;
use crate::node::ServeStep;
use crate::node::ServeTask;
use crate::paths;
use crate::paths::is_hidden_or_allowlist_name;
use crate::paths::normalize_file_route;
use crate::paths::normalize_page_route;
use crate::paths::path_hash;
use crate::paths::strip_file_prefix;
use crate::paths::strip_page_prefix;
use crate::paths::validate_content_relative_path;
use crate::request;
use crate::request::BodyView;
use crate::request::decode_request_fields;
use crate::request::fields_of_body;
use crate::request::FormBody;
use crate::request::NomadRequestFields;
use crate::route_laws;
use crate::routes;
use crate::spawn::SpawnPhaseView;
use crate::spawn::SpawnTask;
use crate::storage::NomadContentRoots;
use crate::storage::NomadContentStore;
use crate::store_laws;
use crate::store_task;
use crate::store_task::OpView;
use crate::store_task::OutputView;
use crate::store_task::StoreStep;
use crate::store_task::StoreTask;
use crate::text;

verus! {

/// `normalize_page_route`: an accepted path, alone, behind a slash or behind the
/// prefix, and whatever blanks are around, gives the prefix followed by the path.
pub proof fn law_normalize_page_route(
    path: &str,
    r: Result<String, NomadError>,
    a: Seq<char>,
    rel: Seq<char>,
    b: Seq<char>,
)
    requires
        call_ensures(normalize_page_route, (path,), r),
        forall|i: int| 0 <= i < a.len() ==> text::is_white_space(#[trigger] a[i]),
        forall|i: int| 0 <= i < b.len() ==> text::is_white_space(#[trigger] b[i]),
        paths::content_path_error(rel) is None,
        text::trimmed(rel) == rel,
        rel[0] != '/',
    ensures
        path@ == a + rel + b ==> (r matches Ok(route) && route@ == "/page/"@ + rel),
        path@ == a + ("/page/"@ + rel) + b ==> (r matches Ok(route) && route@ == "/page/"@ + rel),
        path@ == a + ("/"@ + rel) + b && rel != "page"@ && !"page/"@.is_prefix_of(rel) ==> (
        r matches Ok(route) && route@ == "/page/"@ + rel),
        path@ == a + "/page"@ + b ==> (r matches Ok(route) && route@ == "/page/index.mu"@),
        path@ == a + b ==> r is Err,
{
    route_laws::law_page_paths_have_one_route(rel);
    route_laws::law_blank_and_bare_routes(path@);
    lemma_blanks_around(a, rel, b);
    lemma_blanks_around(a, "/page/"@ + rel, b);
    lemma_blanks_around(a, "/"@ + rel, b);
    lemma_blanks_around(a, "/page"@, b);
    text::law_trimming_takes_the_blanks_around(a, Seq::empty(), b);
    assert(a + Seq::<char>::empty() + b =~= a + b);
    text::lemma_trimmed_idempotent(rel);
    lemma_ends(rel);
}

/// `normalize_file_route`: the same, but that there is no default file.
pub proof fn law_normalize_file_route(
    path: &str,
    r: Result<String, NomadError>,
    a: Seq<char>,
    rel: Seq<char>,
    b: Seq<char>,
)
    requires
        call_ensures(normalize_file_route, (path,), r),
        forall|i: int| 0 <= i < a.len() ==> text::is_white_space(#[trigger] a[i]),
        forall|i: int| 0 <= i < b.len() ==> text::is_white_space(#[trigger] b[i]),
        paths::content_path_error(rel) is None,
        text::trimmed(rel) == rel,
        rel[0] != '/',
    ensures
        path@ == a + rel + b ==> (r matches Ok(route) && route@ == "/file/"@ + rel),
        path@ == a + ("/file/"@ + rel) + b ==> (r matches Ok(route) && route@ == "/file/"@ + rel),
        path@ == a + ("/"@ + rel) + b && rel != "file"@ && !"file/"@.is_prefix_of(rel) ==> (
        r matches Ok(route) && route@ == "/file/"@ + rel),
        path@ == a + "/file"@ + b ==> r is Err,
        path@ == a + b ==> r is Err,
{
    route_laws::law_file_paths_have_one_route(rel);
    route_laws::law_blank_and_bare_routes(path@);
    lemma_blanks_around(a, rel, b);
    lemma_blanks_around(a, "/file/"@ + rel, b);
    lemma_blanks_around(a, "/"@ + rel, b);
    lemma_blanks_around(a, "/file"@, b);
    text::law_trimming_takes_the_blanks_around(a, Seq::empty(), b);
    assert(a + Seq::<char>::empty() + b =~= a + b);
    text::lemma_trimmed_idempotent(rel);
    lemma_ends(rel);
}

/// The ends of an accepted path, and of the routes made of it, are no blanks.
proof fn lemma_ends(rel: Seq<char>)
    requires
        paths::content_path_error(rel) is None,
        text::trimmed(rel) == rel,
    ensures
        rel.len() > 0,
        text::trimmed("/page/"@ + rel) == "/page/"@ + rel,
        text::trimmed("/file/"@ + rel) == "/file/"@ + rel,
        text::trimmed("/"@ + rel) == "/"@ + rel,
        text::trimmed("/page"@) == "/page"@,
        text::trimmed("/file"@) == "/file"@,
{
    assert(rel.len() > 0) by {
        if rel.len() == 0 {
            assert(text::without_leading_slashes(rel) == rel);
        }
    }
    text::lemma_trimmed_idempotent(rel);
    reveal_strlit("/page/");
    reveal_strlit("/file/");
    reveal_strlit("/page");
    reveal_strlit("/file");
    reveal_strlit("/");
    text::lemma_trimmed_unchanged("/page/"@ + rel);
    text::lemma_trimmed_unchanged("/file/"@ + rel);
    text::lemma_trimmed_unchanged("/"@ + rel);
    text::lemma_trimmed_unchanged("/page"@);
    text::lemma_trimmed_unchanged("/file"@);
}

/// Blanks around a text do not matter to what it is trimmed to.
proof fn lemma_blanks_around(a: Seq<char>, s: Seq<char>, b: Seq<char>)
    requires
        forall|i: int| 0 <= i < a.len() ==> text::is_white_space(#[trigger] a[i]),
        forall|i: int| 0 <= i < b.len() ==> text::is_white_space(#[trigger] b[i]),
    ensures
        text::trimmed(s) == s ==> text::trimmed(a + s + b) == s,
{
    if text::trimmed(s) == s {
        text::lemma_trimmed_idempotent(s);
        text::law_trimming_takes_the_blanks_around(a, s, b);
    }
}

/// `strip_page_prefix` and `strip_file_prefix` give back the path that a route was made
/// of.
pub proof fn law_strip_prefixes(
    page: &str,
    p: Result<&str, NomadError>,
    file: &str,
    f: Result<&str, NomadError>,
    rel: Seq<char>,
)
    requires
        call_ensures(strip_page_prefix, (page,), p),
        call_ensures(strip_file_prefix, (file,), f),
        rel.len() > 0,
        !text::is_white_space(rel.last()),
    ensures
        page@ == "/page/"@ + rel && paths::content_path_error(rel) is None ==> (p matches Ok(s)
            && s@ == rel),
        file@ == "/file/"@ + rel && paths::content_path_error(rel) is None ==> (f matches Ok(s)
            && s@ == rel),
        page@ == "/page/"@ + rel && paths::content_path_error(rel) is Some ==> p is Err,
        file@ == "/file/"@ + rel && paths::content_path_error(rel) is Some ==> f is Err,
        !"/page/"@.is_prefix_of(text::trimmed(page@)) ==> p is Err,
        !"/file/"@.is_prefix_of(text::trimmed(file@)) ==> f is Err,
{
    route_laws::law_stripping_takes_the_prefix_off(rel, page@);
    route_laws::law_stripping_takes_the_prefix_off(rel, file@);
}

/// `path_hash`: the first sixteen bytes of the SHA-256 digest of all of the route.
pub proof fn law_path_hash(route: &str, r: [u8; 16], i: int)
    requires
        call_ensures(path_hash, (route,), r),
        0 <= i < 16 <= paths::sha256_digest(encode_utf8(route@)).len(),
    ensures
        r@[i] == paths::sha256_digest(encode_utf8(route@))[i],
{
    route_laws::law_hashes_are_of_the_whole_route(route@, i);
}

/// `validate_content_relative_path` accepts exactly the paths that, blanks around and
/// leading slashes aside, are neither empty nor over 1024 bytes long, hold neither NUL,
/// nor backslash, nor control codes, and have at most 32 components, all names that may
/// be served. What leads up is never accepted.
pub proof fn law_validate_content_relative_path(
    rel: &str,
    r: Result<(), NomadError>,
    a: Seq<char>,
    b: Seq<char>,
)
    requires
        call_ensures(validate_content_relative_path, (rel,), r),
        a.len() == 0 || a.last() == '/',
        b.len() == 0 || b[0] == '/',
    ensures
        r is Ok <==> ({
            let path = text::without_leading_slashes(text::trimmed(rel@));
            let comps = components::components(path);
            &&& path.len() > 0
            &&& encode_utf8(path).len() <= 1024
            &&& !rel@.contains('\0')
            &&& !rel@.contains('\\')
            &&& !text::has_control(rel@)
            &&& comps.len() <= 32
            &&& forall|j: int|
                0 <= j < comps.len() ==> route_laws::is_servable_name(#[trigger] comps[j])
        }),
        rel@ == a + seq!['.', '.'] + b ==> r is Err,
{
    route_laws::law_accepted_content_paths(rel@);
    route_laws::law_paths_that_lead_up_are_refused(a, b);
}

/// `is_hidden_or_allowlist_name`: blanks around aside, what begins with a dot or ends
/// in `.allowed`.
pub proof fn law_is_hidden_or_allowlist_name(name: &str, r: bool)
    requires
        call_ensures(is_hidden_or_allowlist_name, (name,), r),
    ensures
        r <==> route_laws::is_begun_by_a_dot(text::trimmed(name@))
            || route_laws::is_ended_by_allowed(text::trimmed(name@)),
{
    route_laws::law_hidden_names(name@, Seq::empty());
}

/// `announce_app_data`: the bytes of the trimmed name, where it is not blank and they
/// are at most 256; a start of them where they are more; none without a name.
pub proof fn law_announce_app_data(name: Option<&str>, r: Option<Vec<u8>>)
    requires
        call_ensures(announce_app_data, (name,), r),
    ensures
        match name {
            None => r is None,
            Some(name) => {
                let all = encode_utf8(text::trimmed(name@));
                &&& r is None <==> text::trimmed(name@).len() == 0
                &&& r matches Some(data) ==> {
                    &&& all.len() <= 256 ==> data@ == all
                    &&& all.len() > 256 ==> 252 < data@.len() <= 256 && data@.is_prefix_of(all)
                }
            },
        },
{
    match name {
        None => {},
        Some(name) => {
            let given = text::trimmed(name@);
            announce::law_announces_carry_the_name(name@);
            if encode_utf8(given).len() > 256 {
                let n = choose|n: int|
                    {
                        let start = #[trigger] given.take(n);
                        &&& 0 < n < given.len()
                        &&& announce::app_data(Some(name@)) == Some(encode_utf8(start))
                        &&& 252 < encode_utf8(start).len() <= 256
                    };
                let start = given.take(n);
                assert(given =~= start + given.skip(n));
                text::lemma_encode_concat(start, given.skip(n));
                assert(encode_utf8(given).subrange(0, encode_utf8(start).len() as int)
                    =~= encode_utf8(start));
            }
        },
    }
}

/// `build_nomad_announce_packet`, `announce_header` and `announce_plan`: the packet is
/// the header followed by the announce, the header names the destination, and the
/// node announces itself as it was configured to.
pub proof fn law_announces_are_built_as_configured(
    header: Vec<u8>,
    data: Vec<u8>,
    packet: Result<Vec<u8>, NomadError>,
    hash: [u8; 16],
    head: AnnounceHeader,
    config: &NomadNodeConfig,
    plan: AnnouncePlan,
)
    requires
        call_ensures(build_nomad_announce_packet, (header, Ok(data)), packet),
        call_ensures(announce_header, (hash,), head),
        call_ensures(announce_plan, (config,), plan),
    ensures
        packet matches Ok(raw) && raw@ == header@ + data@,
        head.destination_hash == hash,
        head.hops == 0,
        !head.context_flag,
        head.transport_id is None,
        plan.at_start == config.announce_at_start,
        plan.first_after == config.announce_interval,
        plan.then_every == config.announce_interval,
{
}

/// `sanitize_micron_text`: of a text without control codes and backticks the first 128
/// characters; no text gives either.
pub proof fn law_sanitize_micron_text(s: &str, r: String)
    requires
        call_ensures(sanitize_micron_text, (s,), r),
    ensures
        !text::has_control(r@),
        !r@.contains('`'),
        r@.len() <= 128,
        !text::has_control(s@) && !s@.contains('`') ==> r@ == if s@.len() <= 128 {
            s@
        } else {
            s@.take(128)
        },
{
    micron::law_sanitized_text_is_safe(s@);
    micron::law_sanitizing_loses_only_what_is_unsafe(s@, 'a', s@);
}

/// `default_index_page` and `not_found_page`: they show the name, and the route, and
/// are otherwise the same for all.
pub proof fn law_pages_show_what_they_are_given(
    name: &str,
    index: String,
    route: &str,
    missing: String,
)
    requires
        call_ensures(default_index_page, (name,), index),
        call_ensures(not_found_page, (route,), missing),
    ensures
        ({
            let given = text::trimmed(name@);
            let lines = text::lines(index@);
            &&& lines.len() == 7
            &&& 0 < given.len() <= 128 && !text::has_control(given) && !given.contains('`')
                ==> lines[1] == "> "@ + given
            &&& given.len() == 0 ==> lines[1] == "> Nomad node"@
            &&& lines[0] == "#!c=30"@
            &&& lines[3] == "This node is hosted by `rsNomad` (Rust Nomad Network for Reticulum)."@
            &&& lines[5] == "Add pages under `pages/` to replace this placeholder."@
        }),
        route@.len() <= 128 && !text::has_control(route@) && !route@.contains('`') ==> missing@
            == "#!c=0\n> Not found\n\nThe page `"@ + route@ + "` is not available on this node.\n"@,
{
    micron::law_names_add_nothing_to_the_default_page(name@);
    micron::law_default_pages_show_the_name(name@);
    micron::law_missing_pages_name_the_route(route@);
    let given = text::trimmed(name@);
    if given.len() == 0 {
        micron::law_sanitizing_loses_only_what_is_unsafe(given, 'a', given);
    }
}

/// `clamp_display_name`: a name without control codes is kept, all of it where it is
/// at most 256 bytes long, and a start of it where it is longer; no name keeps a
/// control code.
pub proof fn law_clamp_display_name(name: &str, r: String)
    requires
        call_ensures(clamp_display_name, (name,), r),
    ensures
        !text::has_control(r@),
        encode_utf8(r@).len() <= 256,
        !text::has_control(name@) && encode_utf8(name@).len() <= 256 ==> r@ == name@,
        !text::has_control(name@) && encode_utf8(name@).len() > 256 ==> r@ == name@.take(
            r@.len() as int,
        ) && encode_utf8(r@).len() > 252,
{
    names::law_kept_names_are_clean(name@);
    names::law_names_lose_only_controls_and_excess(name@, 'a', name@);
    if !text::has_control(name@) && encode_utf8(name@).len() > 256 {
        let n = choose|n: int|
            {
                let start = #[trigger] name@.take(n);
                0 <= n < name@.len() && names::kept_name(name@) == start && 252 < text::utf8_len(
                    start,
                ) <= 256
            };
        assert(name@.take(n).len() == n);
    }
}

/// `fields_of_body`: among the first 64 entries, each that stands for a key of at most
/// 256 bytes and a value of at most 4096 is kept; of those with one key, the last.
pub proof fn law_fields_of_body(body: &FormBody, r: FieldMap, k: Seq<char>)
    requires
        call_ensures(fields_of_body, (body,), r),
    ensures
        match body@ {
            BodyView::Entries(entries) => {
                let n: int = if entries.len() <= 64 {
                    entries.len() as int
                } else {
                    64
                };
                &&& r@.dom().contains(k) <==> exists|i: int|
                    0 <= i < n && request::has_key(#[trigger] entries[i], k)
                &&& forall|i: int, v: Seq<char>|
                    0 <= i < n && #[trigger] request::is_field(entries[i], k, v) && (forall|j: int|
                        i < j < n ==> !request::has_key(#[trigger] entries[j], k)) ==> r@[k] == v
            },
            _ => !r@.dom().contains(k),
        },
{
    match body@ {
        BodyView::Entries(entries) => request::law_fields_are_those_of_the_entries(entries, k),
        _ => request::law_fields_are_those_of_the_entries(Seq::empty(), k),
    }
}

/// `decode_request_fields`: a body of at most 64 kilobytes is kept as it is, with the
/// fields that its map holds; a longer one is refused.
pub proof fn law_decode_request_fields(
    data: &[u8],
    r: Result<NomadRequestFields, NomadError>,
    k: Seq<char>,
)
    requires
        call_ensures(decode_request_fields, (data,), r),
    ensures
        r is Ok <==> data@.len() <= 65_536,
        r matches Err(e) ==> e@ == (ErrorView::TooLarge { size: data@.len(), max: 65_536 }),
        r matches Ok(parsed) ==> {
            &&& parsed.raw@ == data@
            &&& data@.len() == 0 ==> !parsed.fields@.dom().contains(k)
            &&& data@.len() > 0 ==> match request::decoded_body(data@, 8) {
                BodyView::Entries(entries) => {
                    let n: int = if entries.len() <= 64 {
                        entries.len() as int
                    } else {
                        64
                    };
                    &&& parsed.fields@.dom().contains(k) <==> exists|i: int|
                        0 <= i < n && request::has_key(#[trigger] entries[i], k)
                    &&& forall|i: int, v: Seq<char>|
                        0 <= i < n && #[trigger] request::is_field(entries[i], k, v) && (
                        forall|j: int|
                            i < j < n ==> !request::has_key(#[trigger] entries[j], k))
                            ==> parsed.fields@[k] == v
                },
                _ => !parsed.fields@.dom().contains(k),
            }
        },
{
    match request::decoded_body(data@, 8) {
        BodyView::Entries(entries) => request::law_fields_are_those_of_the_entries(entries, k),
        _ => request::law_fields_are_those_of_the_entries(Seq::empty(), k),
    }
}

/// `write_page_rel` and `read_page_rel`: an accepted page within the cap is written,
/// and once the write has succeeded, a read gives back all of it.
pub proof fn law_written_pages_read_back(
    store: &NomadContentStore,
    rel: &str,
    content: &[u8],
    w: Result<StoreTask, NomadError>,
    r: Result<StoreTask, NomadError>,
    d: Disk,
    faults: Faults,
)
    requires
        call_ensures(NomadContentStore::write_page_rel, (store, rel, content), w),
        call_ensures(NomadContentStore::read_page_rel, (store, rel), r),
        disk::is_disk(d),
        store_laws::names_of(rel@).len() <= usize::MAX,
        store_laws::links_above_are_told(d, faults, store@.pages_dir, rel@),
        !disk::is_link(d.nodes, store_laws::temp_place(d, store@.pages_dir, rel@)),
    ensures
        w is Ok <==> paths::content_path_error(rel@) is None && content@.len()
            <= store@.max_page_bytes,
        r is Ok <==> paths::content_path_error(rel@) is None,
        w matches Ok(write) ==> (r matches Ok(read) && (disk::run(d, faults, write@).1 is Ok
            ==> disk::run(disk::run(d, faults, write@).0, disk::no_faults(), read@).1 == Ok::<
            OutputView,
            ErrorView,
        >(OutputView::Body(content@)))),
{
    content_laws::law_operations_are_begun_as_asked(
        store@.pages_dir,
        store@.max_page_bytes,
        rel@,
        content@,
        OpView::Delete,
    );
    match w {
        Ok(write) => if disk::run(d, faults, write@).1 is Ok {
            content_laws::law_stored_content_reads_back(
                d,
                faults,
                store@.pages_dir,
                store@.max_page_bytes,
                rel@,
                content@,
                write@,
            );
        },
        Err(_) => {},
    }
}

/// `write_file_rel` and `read_file_rel`: the same of files.
pub proof fn law_written_files_read_back(
    store: &NomadContentStore,
    rel: &str,
    content: &[u8],
    w: Result<StoreTask, NomadError>,
    r: Result<StoreTask, NomadError>,
    d: Disk,
    faults: Faults,
)
    requires
        call_ensures(NomadContentStore::write_file_rel, (store, rel, content), w),
        call_ensures(NomadContentStore::read_file_rel, (store, rel), r),
        disk::is_disk(d),
        store_laws::names_of(rel@).len() <= usize::MAX,
        store_laws::links_above_are_told(d, faults, store@.files_dir, rel@),
        !disk::is_link(d.nodes, store_laws::temp_place(d, store@.files_dir, rel@)),
    ensures
        w is Ok <==> paths::content_path_error(rel@) is None && content@.len()
            <= store@.max_file_bytes,
        r is Ok <==> paths::content_path_error(rel@) is None,
        w matches Ok(write) ==> (r matches Ok(read) && (disk::run(d, faults, write@).1 is Ok
            ==> disk::run(disk::run(d, faults, write@).0, disk::no_faults(), read@).1 == Ok::<
            OutputView,
            ErrorView,
        >(OutputView::Body(content@)))),
{
    content_laws::law_operations_are_begun_as_asked(
        store@.files_dir,
        store@.max_file_bytes,
        rel@,
        content@,
        OpView::Delete,
    );
    match w {
        Ok(write) => if disk::run(d, faults, write@).1 is Ok {
            content_laws::law_stored_content_reads_back(
                d,
                faults,
                store@.files_dir,
                store@.max_file_bytes,
                rel@,
                content@,
                write@,
            );
        },
        Err(_) => {},
    }
}

/// `delete_page_rel` and `delete_file_rel`: an accepted path is deleted under its root;
/// where a file is there and nothing fails, it is then gone.
pub proof fn law_deleted_content_goes(
    store: &NomadContentStore,
    rel: &str,
    p: Result<StoreTask, NomadError>,
    f: Result<StoreTask, NomadError>,
    d: Disk,
)
    requires
        call_ensures(NomadContentStore::delete_page_rel, (store, rel), p),
        call_ensures(NomadContentStore::delete_file_rel, (store, rel), f),
        disk::is_disk(d),
        store_laws::names_of(rel@).len() <= usize::MAX,
    ensures
        p is Ok <==> paths::content_path_error(rel@) is None,
        f is Ok <==> paths::content_path_error(rel@) is None,
        p matches Ok(task) ==> is_file(d, store@.pages_dir, rel@) ==> disk::run(
            d,
            disk::no_faults(),
            task@,
        ) == (
            Disk { nodes: d.nodes.remove(store_laws::place(d, store@.pages_dir, rel@)), ..d },
            Ok::<OutputView, ErrorView>(OutputView::Unit),
        ),
        f matches Ok(task) ==> is_file(d, store@.files_dir, rel@) ==> disk::run(
            d,
            disk::no_faults(),
            task@,
        ) == (
            Disk { nodes: d.nodes.remove(store_laws::place(d, store@.files_dir, rel@)), ..d },
            Ok::<OutputView, ErrorView>(OutputView::Unit),
        ),
{
    if paths::content_path_error(rel@) is None {
        if is_file(d, store@.pages_dir, rel@) {
            content_laws::law_deleting_succeeds(d, store@.pages_dir, rel@);
        }
        if is_file(d, store@.files_dir, rel@) {
            content_laws::law_deleting_succeeds(d, store@.files_dir, rel@);
        }
    }
}

/// Is there a file in the content's place, on a clear way?
pub open spec fn is_file(d: Disk, root: Seq<char>, rel: Seq<char>) -> bool {
    &&& content_laws::is_clear(d, root, rel)
    &&& d.nodes.dom().contains(store_laws::place(d, root, rel))
    &&& d.nodes[store_laws::place(d, root, rel)] is File
}

/// `RequestBudget::try_acquire`: with fewer than eight requests in flight, a request is
/// admitted if its window has fewer than sixty, or ten seconds after its window began,
/// when a new and empty one begins; and not else.
pub proof fn law_try_acquire(b: &mut RequestBudget, now: u128, r: Option<RequestPermit>)
    requires
        call_ensures(RequestBudget::try_acquire, (b, now), r),
    ensures
        ({
            let is_new = now >= old(b)@.window_start && now - old(b)@.window_start
                >= 10_000_000_000;
            let before: nat = if is_new {
                0
            } else {
                old(b)@.window_count
            };
            &&& r is Some <==> old(b)@.in_flight < 8 && before < 60
            &&& final(b)@.window_start == if is_new {
                now
            } else {
                old(b)@.window_start
            }
            &&& r is Some ==> final(b)@.in_flight == old(b)@.in_flight + 1 && final(b)@.window_count
                == before + 1
            &&& r is None ==> final(b)@.in_flight == old(b)@.in_flight && final(b)@.window_count
                == before
        }),
{
    crate::budget::law_requests_are_counted_in_their_window(old(b)@, now);
}

/// `NomadNode::handle_request`: over the budget a request is dropped; an unknown hash
/// is answered with the page for unknown routes; a registered page or file is read, all
/// of it up to the cap, from the path behind its prefix.
pub proof fn law_handle_request(
    n: &mut NomadNode,
    hash: &[u8; 16],
    now: u128,
    now_ms: u64,
    r: ServeStep,
    rel: Seq<char>,
)
    requires
        call_ensures(NomadNode::handle_request, (n, hash, now, now_ms), r),
        paths::content_path_error(rel) is None,
        text::trimmed(rel) == rel,
        rel[0] != '/',
    ensures
        !crate::budget::admits(old(n)@.budget, now) ==> r matches ServeStep::Answer(
            RequestOutcome::Drop(DropReason::OverBudget),
        ),
        crate::budget::admits(old(n)@.budget, now) && !old(n)@.routes.dom().contains(hash@) ==> (
        r matches ServeStep::Answer(RequestOutcome::Reply(bytes)) && bytes@ == encode_utf8(
            micron::missing_page("/page/unknown"@),
        )),
        crate::budget::admits(old(n)@.budget, now) && old(n)@.routes.dom().contains(hash@)
            && old(n)@.routes[hash@] == "/page/"@ + rel ==> (r matches ServeStep::Read(task)
            && task@.read == store_task::started(
            OpView::Read(old(n)@.roots.max_page_bytes),
            old(n)@.roots.pages_dir,
            rel,
        ) && task@.route == "/page/"@ + rel),
        crate::budget::admits(old(n)@.budget, now) && old(n)@.routes.dom().contains(hash@)
            && old(n)@.routes[hash@] == "/file/"@ + rel ==> (r matches ServeStep::Read(task)
            && task@.read == store_task::started(
            OpView::Read(old(n)@.roots.max_file_bytes),
            old(n)@.roots.files_dir,
            rel,
        ) && task@.route == "/file/"@ + rel),
        final(n)@.routes == old(n)@.routes,
        final(n)@.roots == old(n)@.roots,
        final(n)@.display_name == old(n)@.display_name,
{
    lemma_ends(rel);
    text::lemma_trimmed_idempotent(rel);
    route_laws::law_stripping_takes_the_prefix_off(rel, rel);
    let p = "/page/"@ + rel;
    let f = "/file/"@ + rel;
    assert(p.subrange(0, "/page/"@.len() as int) =~= "/page/"@);
    assert(f.subrange(0, "/file/"@.len() as int) =~= "/file/"@);
    reveal_strlit("/page/");
    reveal_strlit("/file/");
    if "/page/"@.is_prefix_of(f) {
        assert("/page/"@[1] == f.subrange(0, 6)[1]);
        assert("/file/"@[1] == f.subrange(0, 6)[1]);
    }
}

/// `ensure_default_index`: where no index page is and nothing is in the way, the page
/// that greets under the name is put there; where one is, it is left alone.
pub proof fn law_ensure_default_index(
    store: &NomadContentStore,
    name: &str,
    page: String,
    r: Result<StoreTask, NomadError>,
    d: Disk,
)
    requires
        call_ensures(NomadContentStore::ensure_default_index, (store, name), r),
        call_ensures(default_index_page, (name,), page),
        disk::is_disk(d),
    ensures
        r is Ok,
        ({
            let root = store@.pages_dir;
            let (after, end) = disk::run(d, disk::no_faults(), r->Ok_0@);
            let place = store_laws::place(d, root, "index.mu"@);
            &&& content_laws::is_writable(d, root, "index.mu"@) && !d.nodes.dom().contains(place)
                ==> end is Ok && after.nodes.dom().contains(place) && after.nodes[place]
                == disk::Node::File(encode_utf8(page@))
            &&& content_laws::is_clear(d, root, "index.mu"@) && d.nodes.dom().contains(place)
                ==> end is Ok && after == d
        }),
{
    let root = store@.pages_dir;
    let content = encode_utf8(page@);
    route_laws::law_index_path_is_accepted();
    let place = store_laws::place(d, root, "index.mu"@);
    if content_laws::is_writable(d, root, "index.mu"@) && !d.nodes.dom().contains(place) {
        content_laws::law_missing_content_is_written(d, root, "index.mu"@, content);
    }
    if content_laws::is_clear(d, root, "index.mu"@) && d.nodes.dom().contains(place) {
        content_laws::law_present_content_is_left_alone(d, root, "index.mu"@, content);
    }
}

/// `read_page_route` and `read_file_route`: the route of a path is read as the path, a
/// page's from the page directory and a file's from the file directory, each under its
/// cap; `list_pages` and `list_files` list these directories.
pub proof fn law_routes_and_listings_go_to_their_directories(
    store: &NomadContentStore,
    page: &str,
    p: Result<StoreTask, NomadError>,
    file: &str,
    f: Result<StoreTask, NomadError>,
    pages: ListTask,
    files: ListTask,
    rel: Seq<char>,
)
    requires
        call_ensures(NomadContentStore::read_page_route, (store, page), p),
        call_ensures(NomadContentStore::read_file_route, (store, file), f),
        call_ensures(NomadContentStore::list_pages, (store,), pages),
        call_ensures(NomadContentStore::list_files, (store,), files),
        page@ == "/page/"@ + rel,
        file@ == "/file/"@ + rel,
        rel.len() > 0,
        !text::is_white_space(rel.last()),
    ensures
        pages@.root == store@.pages_dir,
        files@.root == store@.files_dir,
        pages@.out.len() == 0 && pages@.dirs.len() == 0,
        files@.out.len() == 0 && files@.dirs.len() == 0,
        p is Ok <==> paths::content_path_error(rel) is None,
        f is Ok <==> paths::content_path_error(rel) is None,
        p matches Ok(task) ==> task@ == store_task::started(
            OpView::Read(store@.max_page_bytes),
            store@.pages_dir,
            rel,
        ),
        f matches Ok(task) ==> task@ == store_task::started(
            OpView::Read(store@.max_file_bytes),
            store@.files_dir,
            rel,
        ),
{
    route_laws::law_stripping_takes_the_prefix_off(rel, rel);
}

/// `NomadContentRoots::under`: the directories `pages` and `files` under the base, with
/// the default caps.
pub proof fn law_content_roots_under(base: &str, r: NomadContentRoots)
    requires
        call_ensures(NomadContentRoots::under, (base,), r),
        base@.len() > 0,
        base@.last() != '/',
    ensures
        r@.pages_dir == base@ + "/pages"@,
        r@.files_dir == base@ + "/files"@,
        r@.max_page_bytes == 524_288,
        r@.max_file_bytes == 4_194_304,
{
    content_laws::law_roots_are_under_the_base(base@);
}

/// A run of a store task is what `request` and `resume` do: the task asks for what the
/// run asks for, and goes on, or ends, as the run does.
pub proof fn law_store_tasks_are_run_by_their_calls(
    task: StoreTask,
    asked: FsRequest,
    reply: FsReply,
    step: StoreStep,
)
    requires
        call_ensures(StoreTask::request, (&task,), asked),
        call_ensures(StoreTask::resume, (task, reply), step),
    ensures
        asked@ == store_task::request_of(task@),
        step@ == store_task::next(task@, reply@),
{
}

/// So it is of a listing,
pub proof fn law_list_tasks_are_run_by_their_calls(
    task: ListTask,
    asked: ListRequest,
    reply: ListReply,
    step: ListStep,
)
    requires
        call_ensures(ListTask::request, (&task,), asked),
        call_ensures(ListTask::resume, (task, reply), step),
    ensures
        asked == task@.request,
        step@ == listing::next(task@, reply@),
{
}

/// and of a request that is served.
pub proof fn law_serve_tasks_are_run_by_their_calls(
    n: &mut NomadNode,
    task: ServeTask,
    asked: FsRequest,
    reply: FsReply,
    step: ServeStep,
)
    requires
        call_ensures(ServeTask::request, (&task,), asked),
        call_ensures(NomadNode::resume_request, (n, task, reply), step),
    ensures
        asked@ == store_task::request_of(task@.read),
        (final(n)@, step@) == node::resumed(old(n)@, task@, reply@),
{
}

/// `set_display_name` changes the name and nothing else: a name of at most 256 bytes
/// without control codes becomes the name. `destination_hash_hex` tells the hash, digit
/// by digit.
pub proof fn law_names_and_hashes_of_a_node(
    n: &mut NomadNode,
    name: &str,
    u: (),
    other: &NomadNode,
    hex: String,
    i: int,
)
    requires
        call_ensures(NomadNode::set_display_name, (n, name), u),
        call_ensures(NomadNode::destination_hash_hex, (other,), hex),
        0 <= i < other@.destination_hash.len(),
    ensures
        !text::has_control(name@) && encode_utf8(name@).len() <= 256 ==> final(n)@.display_name
            == name@,
        !text::has_control(final(n)@.display_name),
        final(n)@.routes == old(n)@.routes,
        final(n)@.roots == old(n)@.roots,
        final(n)@.stats == old(n)@.stats,
        final(n)@.budget == old(n)@.budget,
        final(n)@.destination_hash == old(n)@.destination_hash,
        final(n)@.identity_hash == old(n)@.identity_hash,
        hex@.len() == 2 * other@.destination_hash.len(),
        16 * names::hex_value(hex@[2 * i]) + names::hex_value(hex@[2 * i + 1])
            == other@.destination_hash[i],
{
    names::law_kept_names_are_clean(name@);
    names::law_keeping_a_name_is_stable(name@);
    names::law_hex_text_tells_the_bytes(other@.destination_hash, i);
}

/// `register_route` puts the route under its own hash, unless another route has it, and
/// changes nothing else; a request for the hash then finds it.
pub proof fn law_register_route(
    n: &mut NomadNode,
    route: String,
    r: Result<(), NomadError>,
    other: Seq<u8>,
)
    requires
        call_ensures(NomadNode::register_route, (n, route), r),
    ensures
        ({
            let hash = paths::route_hash(route@);
            let before = old(n)@.routes;
            let after = final(n)@.routes;
            &&& r is Ok <==> !before.dom().contains(hash) || before[hash] == route@
            &&& r is Ok ==> after.dom().contains(hash) && after[hash] == route@
            &&& other != hash ==> (after.dom().contains(other) <==> before.dom().contains(other))
            &&& other != hash && before.dom().contains(other) ==> after[other] == before[other]
            &&& r is Err ==> after == before
            &&& final(n)@.roots == old(n)@.roots
            &&& final(n)@.stats == old(n)@.stats
            &&& final(n)@.budget == old(n)@.budget
        }),
{
    routes::law_routes_are_found_where_they_are_registered(
        old(n)@.routes,
        paths::route_hash(route@),
        route@,
        other,
    );
}

/// `spawn` begins with the index page of the configured name, for a node that has the
/// hashes and the store it was given.
pub proof fn law_spawn(
    destination_hash: [u8; 16],
    identity_hash: [u8; 16],
    store: NomadContentStore,
    config: &NomadNodeConfig,
    r: Result<SpawnTask, NomadError>,
)
    requires
        call_ensures(NomadNode::spawn, (destination_hash, identity_hash, store, config), r),
    ensures
        r matches Ok(task) && {
            &&& task@.node.destination_hash == destination_hash@
            &&& task@.node.identity_hash == identity_hash@
            &&& task@.node.roots == store@
            &&& !text::has_control(config.display_name@) && encode_utf8(config.display_name@).len()
                <= 256 ==> task@.node.display_name == config.display_name@
            &&& task@.phase == SpawnPhaseView::Index(
                store_task::started(
                    OpView::WriteIfMissing(
                        encode_utf8(micron::index_page(task@.node.display_name)),
                    ),
                    store@.pages_dir,
                    "index.mu"@,
                ),
            )
        },
{
    route_laws::law_index_path_is_accepted();
    names::law_keeping_a_name_is_stable(config.display_name@);
}

} // verus!
