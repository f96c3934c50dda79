//! Path normalization and validation for Nomad `/page/` and `/file/` routes.

use vstd::prelude::*;
use vstd::utf8::*;
use vstd::string::*;

use crate::components;
use crate::components::components_of;
use crate::components::ComponentView;
use crate::components::PathComponent;
use crate::error::ErrorView;
use crate::error::NomadError;
use crate::text;
use crate::text::join2;
use crate::text::join3;

verus! {

/// Max path components under a content root (DoS / deep-nesting guard).
pub const MAX_PATH_COMPONENTS: usize = 32;

/// Max UTF-8 bytes for a single path component name.
pub const MAX_COMPONENT_BYTES: usize = 255;

/// Max UTF-8 bytes for a full relative path.
pub const MAX_REL_PATH_BYTES: usize = 1024;

/// Wire prefix for page routes.
pub const PAGE_PREFIX: &'static str = "/page/";

/// Wire prefix for file routes.
pub const FILE_PREFIX: &'static str = "/file/";

/// Default page registered when the pages tree is empty.
pub const DEFAULT_INDEX_ROUTE: &'static str = "/page/index.mu";

/// Aspect Nomad Network nodes announce and serve under.
pub const NOMAD_NODE_ASPECT: &'static str = "nomadnetwork.node";

/// A hidden or allowlist name: a dotfile, or one that ends in `.allowed`.
pub open spec fn is_hidden(name: Seq<char>) -> bool {
    let name = text::trimmed(name);
    name.len() > 0 && (name[0] == '.' || ".allowed"@.is_suffix_of(name))
}

/// What is wrong with the characters of `s`, if anything; `ctx` says what `s` is.
pub open spec fn character_error(s: Seq<char>, ctx: Seq<char>) -> Option<ErrorView> {
    if s.contains('\0') || s.contains('\\') {
        Some(ErrorView::InvalidPath("invalid "@ + ctx + " characters"@))
    } else if text::has_control(s) {
        Some(ErrorView::InvalidPath("control characters in "@ + ctx))
    } else {
        None
    }
}

/// What is wrong with the component that is the `count`th of its path.
pub open spec fn component_error(c: ComponentView, count: nat) -> Option<ErrorView> {
    match c {
        ComponentView::Normal(name) => {
            if count > MAX_PATH_COMPONENTS {
                Some(ErrorView::InvalidPath("path too deep"@))
            } else if text::utf8_len(name) > MAX_COMPONENT_BYTES {
                Some(ErrorView::InvalidPath("path component too long"@))
            } else if text::has_control(name) {
                Some(ErrorView::InvalidPath("control characters in path"@))
            } else if is_hidden(name) {
                Some(ErrorView::InvalidPath("hidden or allowlist paths are not served"@))
            } else {
                None
            }
        },
        _ => Some(ErrorView::PathTraversal),
    }
}

/// The first error among the components from position `i` on.
pub open spec fn first_component_error(comps: Seq<ComponentView>, i: nat) -> Option<ErrorView>
    decreases comps.len() - i,
{
    if i >= comps.len() {
        None
    } else {
        match component_error(comps[i as int], i + 1) {
            Some(e) => Some(e),
            None => first_component_error(comps, i + 1),
        }
    }
}

/// A relative path as validation looks at it: trimmed, without leading slashes.
pub open spec fn cleaned(rel: Seq<char>) -> Seq<char> {
    text::without_leading_slashes(text::trimmed(rel))
}

/// What is wrong with the content-relative path `rel`, if anything. Control
/// codes are looked for in all of `rel`, also where trimming would drop them: the
/// path is walked as it was given.
pub open spec fn content_path_error(rel: Seq<char>) -> Option<ErrorView> {
    let path = cleaned(rel);
    if path.len() == 0 {
        Some(ErrorView::InvalidPath("empty relative path"@))
    } else if text::utf8_len(path) > MAX_REL_PATH_BYTES {
        Some(ErrorView::InvalidPath("path too long"@))
    } else {
        match character_error(rel, "path"@) {
            Some(e) => Some(e),
            None => first_component_error(components::components(path), 0),
        }
    }
}

/// The relative path of a route under `prefix`; `kind` names the kind of route.
pub open spec fn stripped(route: Seq<char>, prefix: Seq<char>, kind: Seq<char>) -> Result<
    Seq<char>,
    ErrorView,
> {
    let route = text::trimmed(route);
    if prefix.is_prefix_of(route) && route.len() > prefix.len() {
        let rel = route.skip(prefix.len() as int);
        match content_path_error(rel) {
            Some(e) => Err(e),
            None => Ok(rel),
        }
    } else {
        Err(ErrorView::InvalidPath("not a "@ + kind + " route: "@ + route))
    }
}

/// The route that trimmed, non-empty text stands for, before it is checked.
pub open spec fn route_of(
    given: Seq<char>,
    prefix: Seq<char>,
    index: Option<Seq<char>>,
    kind: Seq<char>,
) -> Result<Seq<char>, ErrorView> {
    let bare = text::without_end_slashes(prefix);
    if prefix.is_prefix_of(given) {
        Ok(given)
    } else if given == bare {
        match index {
            Some(index) => Ok(prefix + index),
            None => Err(
                ErrorView::InvalidPath(
                    "bare "@ + bare + " route requires a "@ + kind + " name"@,
                ),
            ),
        }
    } else if given.len() > 0 && given[0] == '/' {
        Ok(prefix + given.skip(1))
    } else {
        Ok(prefix + given)
    }
}

/// The normal form of a route under `prefix`.
pub open spec fn normalized(
    path: Seq<char>,
    prefix: Seq<char>,
    index: Option<Seq<char>>,
    kind: Seq<char>,
) -> Result<Seq<char>, ErrorView> {
    let given = text::trimmed(path);
    if given.len() == 0 {
        Err(ErrorView::InvalidPath("empty "@ + kind + " path"@))
    } else {
        match route_of(given, prefix, index, kind) {
            Err(e) => Err(e),
            Ok(route) => match character_error(route, "route"@) {
                Some(e) => Err(e),
                None => match stripped(route, prefix, kind) {
                    Err(e) => Err(e),
                    Ok(_) => Ok(route),
                },
            },
        }
    }
}

/// The normal form of a page route.
pub open spec fn page_route(path: Seq<char>) -> Result<Seq<char>, ErrorView> {
    normalized(path, PAGE_PREFIX@, Some("index.mu"@), "page"@)
}

/// The normal form of a file route.
pub open spec fn file_route(path: Seq<char>) -> Result<Seq<char>, ErrorView> {
    normalized(path, FILE_PREFIX@, None, "file"@)
}

/// The relative path of a page route.
pub open spec fn page_relative(route: Seq<char>) -> Result<Seq<char>, ErrorView> {
    stripped(route, PAGE_PREFIX@, "page"@)
}

/// The relative path of a file route.
pub open spec fn file_relative(route: Seq<char>) -> Result<Seq<char>, ErrorView> {
    stripped(route, FILE_PREFIX@, "file"@)
}

/// A check's result: the error, if there is one.
pub open spec fn checked(r: Result<(), NomadError>) -> Option<ErrorView> {
    match r {
        Ok(_) => None,
        Err(e) => Some(e@),
    }
}

/// What `rns_crypto::sha256::sha256` computes: the SHA-256 digest of the bytes.
pub uninterp spec fn sha256_digest(data: Seq<u8>) -> Seq<u8>;

/// `rns_crypto::sha256::sha256`: the SHA-256 digest of the bytes, a function of
/// the bytes alone.
#[verifier::external_body]
fn sha256(data: &[u8]) -> (r: [u8; 32])
    ensures
        r@ == sha256_digest(data@),
{
    rns_crypto::sha256::sha256(data)
}

/// The wire path hash of a route: the first 16 bytes of the SHA-256 digest of
/// its UTF-8 bytes.
pub open spec fn route_hash(route: Seq<char>) -> Seq<u8> {
    sha256_digest(encode_utf8(route)).take(16)
}

/// The first 16 bytes of a digest.
pub fn truncate_digest(digest: &[u8; 32]) -> (r: [u8; 16])
    ensures
        r@ == digest@.take(16),
{
    let r: [u8; 16] = [
        digest[0],
        digest[1],
        digest[2],
        digest[3],
        digest[4],
        digest[5],
        digest[6],
        digest[7],
        digest[8],
        digest[9],
        digest[10],
        digest[11],
        digest[12],
        digest[13],
        digest[14],
        digest[15],
    ];
    assert(r@ =~= digest@.take(16));
    r
}

/// Truncated SHA-256 of the exact route string bytes (wire path hash).
pub fn path_hash(route: &str) -> (r: [u8; 16])
    ensures
        r@ == route_hash(route@),
{
    truncate_digest(&sha256(route.as_bytes()))
}

/// Normalize a page route to `/page/...` form.
pub fn normalize_page_route(path: &str) -> (r: Result<String, NomadError>)
    ensures
        crate::error::result_view(r) == page_route(path@),
{
    normalize_route(path, PAGE_PREFIX, Some("index.mu"), "page")
}

/// Normalize a file route to `/file/...` form.
///
/// Bare `/file` (no file name) is rejected: unlike `/page`, there is no
/// default file index.
pub fn normalize_file_route(path: &str) -> (r: Result<String, NomadError>)
    ensures
        crate::error::result_view(r) == file_route(path@),
{
    normalize_route(path, FILE_PREFIX, None, "file")
}

fn normalize_route(path: &str, prefix: &str, default_index: Option<&str>, kind: &str) -> (r: Result<
    String,
    NomadError,
>)
    ensures
        crate::error::result_view(r) == normalized(
            path@,
            prefix@,
            match default_index {
                Some(index) => Some(index@),
                None => None,
            },
            kind@,
        ),
{
    let given = text::trim(path);
    if given.is_empty() {
        let msg = join3("empty ", kind, " path");
        return Err(NomadError::InvalidPath(msg));
    }
    let bare = text::trim_end_slashes(prefix);
    let route = if text::has_prefix(given, prefix) {
        given.to_owned()
    } else if text::same_text(given, bare) {
        match default_index {
            Some(index) => join2(prefix, index),
            None => {
                let start = join3("bare ", bare, " route requires a ");
                let msg = join3(start.as_str(), kind, " name");
                return Err(NomadError::InvalidPath(msg));
            },
        }
    } else if given.get_char(0) == '/' {
        join2(prefix, text::skip_chars(given, 1))
    } else {
        join2(prefix, given)
    };
    match validate_route_chars(route.as_str()) {
        Err(e) => return Err(e),
        Ok(_) => {},
    }
    match strip_route_prefix(route.as_str(), prefix, kind) {
        Err(e) => return Err(e),
        Ok(_) => {},
    }
    Ok(route)
}

/// Strip `/page/` prefix, returning the relative storage path (e.g. `index.mu`).
pub fn strip_page_prefix(route: &str) -> (r: Result<&str, NomadError>)
    ensures
        page_relative(route@) == match r {
            Ok(rel) => Ok(rel@),
            Err(e) => Err(e@),
        },
{
    strip_route_prefix(route, PAGE_PREFIX, "page")
}

/// Strip `/file/` prefix, returning the relative storage path.
pub fn strip_file_prefix(route: &str) -> (r: Result<&str, NomadError>)
    ensures
        file_relative(route@) == match r {
            Ok(rel) => Ok(rel@),
            Err(e) => Err(e@),
        },
{
    strip_route_prefix(route, FILE_PREFIX, "file")
}

fn strip_route_prefix<'a>(route: &'a str, prefix: &str, kind: &str) -> (r: Result<
    &'a str,
    NomadError,
>)
    ensures
        stripped(route@, prefix@, kind@) == match r {
            Ok(rel) => Ok(rel@),
            Err(e) => Err(e@),
        },
{
    let route = text::trim(route);
    let n: usize = prefix.unicode_len();
    if !text::has_prefix(route, prefix) || route.unicode_len() <= n {
        let start = join3("not a ", kind, " route: ");
        return Err(NomadError::InvalidPath(join2(start.as_str(), route)));
    }
    let rel = text::skip_chars(route, n);
    match validate_content_relative_path(rel) {
        Ok(_) => Ok(rel),
        Err(e) => Err(e),
    }
}

/// True for NomadNet-style hidden / allowlist artifacts (dotfiles, `*.allowed`).
/// These must not be listed or served as content.
pub fn is_hidden_or_allowlist_name(name: &str) -> (r: bool)
    ensures
        r == is_hidden(name@),
{
    let name = text::trim(name);
    if name.is_empty() {
        return false;
    }
    name.get_char(0) == '.' || text::has_suffix(name, ".allowed")
}

/// Validate a content-relative path (no leading slash, no `..`, no control chars).
pub fn validate_content_relative_path(rel: &str) -> (r: Result<(), NomadError>)
    ensures
        checked(r) == content_path_error(rel@),
{
    let path = text::trim_slashes(text::trim(rel));
    if path.is_empty() {
        return Err(NomadError::invalid_path("empty relative path"));
    }
    if text::byte_len(path) > MAX_REL_PATH_BYTES {
        return Err(NomadError::invalid_path("path too long"));
    }
    match reject_invalid_chars(rel, "path") {
        Err(e) => return Err(e),
        Ok(_) => {},
    }
    let comps = components_of(path);
    let ghost all = components::components(path@);
    let mut i: usize = 0;
    while i < comps.len()
        invariant
            i <= comps@.len(),
            i <= MAX_PATH_COMPONENTS,
            all == components::views(comps@),
            content_path_error(rel@) == first_component_error(all, 0),
            first_component_error(all, 0) == first_component_error(all, i as nat),
        decreases comps@.len() - i,
    {
        assert(all[i as int] == comps@[i as int]@);
        match &comps[i] {
            PathComponent::Normal(name) => {
                if i + 1 > MAX_PATH_COMPONENTS {
                    return Err(NomadError::invalid_path("path too deep"));
                }
                if text::byte_len(name.as_str()) > MAX_COMPONENT_BYTES {
                    return Err(NomadError::invalid_path("path component too long"));
                }
                if text::any_control(name.as_str()) {
                    return Err(NomadError::invalid_path("control characters in path"));
                }
                if is_hidden_or_allowlist_name(name.as_str()) {
                    return Err(
                        NomadError::invalid_path("hidden or allowlist paths are not served"),
                    );
                }
            },
            _ => return Err(NomadError::PathTraversal),
        }
        i = i + 1;
    }
    Ok(())
}

fn reject_invalid_chars(s: &str, ctx: &str) -> (r: Result<(), NomadError>)
    ensures
        checked(r) == character_error(s@, ctx@),
{
    if text::has_char(s, '\0') || text::has_char(s, '\\') {
        let msg = join3("invalid ", ctx, " characters");
        return Err(NomadError::InvalidPath(msg));
    }
    if text::any_control(s) {
        let msg = join2("control characters in ", ctx);
        return Err(NomadError::InvalidPath(msg));
    }
    Ok(())
}

fn validate_route_chars(route: &str) -> (r: Result<(), NomadError>)
    ensures
        checked(r) == character_error(route@, "route"@),
{
    reject_invalid_chars(route, "route")
}

} // verus!
