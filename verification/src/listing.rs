//! Construction of the directory-listing body handed to the presentation
//! layer: the breadcrumb navigation and the entry list, as HTML fragments.
//! The current path is always expressed relative to the root with
//! forward-slash segments (`.` for the root itself), and the entries are
//! the direct children the store reported, each with its classification.

use vstd::prelude::*;
use crate::paths::{join_segs, relative_string, ResolvedPath};
use crate::store::{EntryDescriptor, EntryKind};

verus! {

/// The current path as displayed: `.` for the root, else the segments
/// joined by `/` with no leading separator.
pub open spec fn current_of(p: Seq<Seq<char>>) -> Seq<char> {
    if p.len() == 0 {
        "."@
    } else {
        join_segs(p)
    }
}

/// One breadcrumb link: the path accumulated so far and the segment named.
pub open spec fn breadcrumb_link(path_so_far: Seq<char>, comp: Seq<char>) -> Seq<char> {
    " <a href=\"/"@ + path_so_far + "\">"@ + comp + "</a> / "@
}

/// The breadcrumb links for every prefix of the current path.
pub open spec fn breadcrumb_links(comps: Seq<Seq<char>>) -> Seq<char>
    decreases comps.len(),
{
    if comps.len() == 0 {
        Seq::empty()
    } else {
        breadcrumb_links(comps.drop_last()) + breadcrumb_link(join_segs(comps), comps.last())
    }
}

/// The whole breadcrumb navigation: the home link, then one link per
/// ancestor; the root shows the home link alone.
pub open spec fn breadcrumb_spec(p: Seq<Seq<char>>) -> Seq<char> {
    "<a href=\"/\">Home</a> / "@ + breadcrumb_links(p)
}

/// The upload control that heads every listing.
pub open spec fn upload_item() -> Seq<char> {
    "<li class=\"upload-item\"><label for=\"file-input\" id=\"upload-label\"><span class=\"icon\">+</span>Upload files</label><input type=\"file\" id=\"file-input\" name=\"files\" multiple onchange=\"uploadFiles()\"></li>"@
}

/// The link back to the parent directory, shown below the root only.
pub open spec fn up_item(p: Seq<Seq<char>>) -> Seq<char> {
    "<li class=\"up-directory\"><span class=\"icon up-icon\"></span><a href=\"/"@ + join_segs(p)
        + "/..\">../</a></li>"@
}

/// One listing entry: an icon matching its classification and a link built
/// from the current path and the child's name.
pub open spec fn entry_item(cur: Seq<char>, name: Seq<char>, kind: EntryKind) -> Seq<char> {
    "<li><span class=\"icon "@ + (if kind == EntryKind::Directory {
        "folder-icon"@
    } else {
        "file-icon"@
    }) + "\"></span><a href=\"/"@ + cur + "/"@ + name + "\">"@ + name + "</a></li>"@
}

/// The entry list, in the order the entries were given.
pub open spec fn entry_items(cur: Seq<char>, es: Seq<EntryDescriptor>) -> Seq<char>
    decreases es.len(),
{
    if es.len() == 0 {
        Seq::empty()
    } else {
        entry_items(cur, es.drop_last()) + entry_item(cur, es.last().name@, es.last().kind)
    }
}

/// The whole directory-contents fragment.
pub open spec fn contents_spec(p: Seq<Seq<char>>, es: Seq<EntryDescriptor>) -> Seq<char> {
    upload_item() + (if p.len() > 0 {
        up_item(p)
    } else {
        Seq::<char>::empty()
    }) + entry_items(current_of(p), es)
}

/// Build the breadcrumb navigation and the directory contents for the
/// resolved directory `path` and its listed children.
pub fn generate_directory_contents(path: &ResolvedPath, entries: &Vec<EntryDescriptor>) -> (r: (
    String,
    String,
))
    ensures
        r.0@ == breadcrumb_spec(path@),
        r.1@ == contents_spec(path@, entries@),
{
    let mut navigation = String::from_str("<a href=\"/\">Home</a> / ");
    let segs = path.segments();
    let mut crumb = String::new();
    let mut i: usize = 0;
    while i < segs.len()
        invariant
            i <= segs@.len(),
            segs.deep_view() == path@,
            crumb@ == join_segs(path@.take(i as int)),
            navigation@ == "<a href=\"/\">Home</a> / "@ + breadcrumb_links(path@.take(i as int)),
        decreases segs@.len() - i,
    {
        if i > 0 {
            crumb.append("/");
            proof {
                reveal_strlit("/");
            }
        }
        crumb.append(segs[i].as_str());
        proof {
            let t = path@.take(i as int + 1);
            assert(t.drop_last() =~= path@.take(i as int));
            assert(t.last() == path@[i as int]);
            assert(crumb@ =~= join_segs(t));
        }
        navigation.append(" <a href=\"/");
        navigation.append(crumb.as_str());
        navigation.append("\">");
        navigation.append(segs[i].as_str());
        navigation.append("</a> / ");
        proof {
            let t = path@.take(i as int + 1);
            assert(navigation@ =~= "<a href=\"/\">Home</a> / "@ + breadcrumb_links(t));
        }
        i = i + 1;
    }
    proof {
        assert(path@.take(path@.len() as int) =~= path@);
    }
    let mut contents = String::from_str(
        "<li class=\"upload-item\"><label for=\"file-input\" id=\"upload-label\"><span class=\"icon\">+</span>Upload files</label><input type=\"file\" id=\"file-input\" name=\"files\" multiple onchange=\"uploadFiles()\"></li>",
    );
    if !path.is_root() {
        contents.append("<li class=\"up-directory\"><span class=\"icon up-icon\"></span><a href=\"/");
        contents.append(crumb.as_str());
        contents.append("/..\">../</a></li>");
        proof {
            assert(contents@ =~= upload_item() + up_item(path@));
        }
    }
    let cur = relative_string(path);
    proof {
        assert(cur@ == current_of(path@));
        assert(contents@ =~= upload_item() + (if path@.len() > 0 {
            up_item(path@)
        } else {
            Seq::<char>::empty()
        }) + entry_items(cur@, entries@.take(0)));
    }
    let mut j: usize = 0;
    while j < entries.len()
        invariant
            j <= entries@.len(),
            cur@ == current_of(path@),
            contents@ == upload_item() + (if path@.len() > 0 {
                up_item(path@)
            } else {
                Seq::<char>::empty()
            }) + entry_items(cur@, entries@.take(j as int)),
        decreases entries@.len() - j,
    {
        contents.append("<li><span class=\"icon ");
        match entries[j].kind {
            EntryKind::Directory => contents.append("folder-icon"),
            _ => contents.append("file-icon"),
        }
        contents.append("\"></span><a href=\"/");
        contents.append(cur.as_str());
        contents.append("/");
        contents.append(entries[j].name.as_str());
        contents.append("\">");
        contents.append(entries[j].name.as_str());
        contents.append("</a></li>");
        proof {
            let t = entries@.take(j as int + 1);
            assert(t.drop_last() =~= entries@.take(j as int));
            assert(t.last() == entries@[j as int]);
            assert(contents@ =~= upload_item() + (if path@.len() > 0 {
                up_item(path@)
            } else {
                Seq::<char>::empty()
            }) + entry_items(cur@, t));
        }
        j = j + 1;
    }
    proof {
        assert(entries@.take(entries@.len() as int) =~= entries@);
    }
    (navigation, contents)
}

} // verus!
