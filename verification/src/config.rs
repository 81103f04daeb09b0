//! Runtime configuration: the same environment knobs as the `reel` shell
//! script, resolved to paths so the GUI and any leftover CLI agree. Reading the
//! environment is the caller's job; this module decides what the values mean.
use crate::paths::{join, join_spec};
use crate::text::{int_text, parse_i64, push_str};
use vstd::prelude::*;

verus! {

#[derive(Clone, Debug)]
pub struct Config {
    /// Local workspace root (`REEL_LIB`, default `~/Videos`).
    pub lib: String,
    /// rclone destination for the shared cloud (`REEL_REMOTE`).
    pub remote: String,
    /// Your folder name inside a trip / the cloud (`REEL_USER`).
    pub user: String,
    /// State dir holding the import ledger and logs.
    pub state_dir: String,
    /// Cache dir for generated thumbnails (`XDG_CACHE_HOME`/reel, else ~/.cache/reel).
    pub cache_dir: String,
    /// Seconds between captures that starts a new session (`REEL_SESSION_GAP`).
    pub session_gap: i64,
    /// Explicit card roots, overriding auto-detection.
    pub dji_sd: Option<String>,
    pub gopro_sd: Option<String>,
    /// User whose `/run/media/<user>/*/DCIM` mounts we scan for cards.
    pub media_user: String,
}

/// The environment variables the configuration is read from, each `None` when
/// unset (or not valid text).
pub struct EnvVars {
    pub home: Option<String>,
    pub reel_user: Option<String>,
    pub user: Option<String>,
    pub reel_lib: Option<String>,
    pub xdg_state_home: Option<String>,
    pub xdg_cache_home: Option<String>,
    pub reel_remote: Option<String>,
    pub reel_session_gap: Option<String>,
    pub dji_sd: Option<String>,
    pub gopro_sd: Option<String>,
}

pub open spec fn or_else(v: Option<String>, dflt: Seq<char>) -> Seq<char> {
    match v {
        Some(s) => s@,
        None => dflt,
    }
}

pub open spec fn opt_view(v: Option<String>) -> Option<Seq<char>> {
    match v {
        Some(s) => Some(s@),
        None => None,
    }
}

/// The home directory, `/root` when `HOME` is unset.
pub open spec fn home_spec(e: EnvVars) -> Seq<char> {
    or_else(e.home, "/root"@)
}

pub open spec fn user_spec(e: EnvVars) -> Seq<char> {
    match e.reel_user {
        Some(u) => u@,
        None => or_else(e.user, "user"@),
    }
}

/// The session gap a `REEL_SESSION_GAP` value gives: its number when it reads as
/// an `i64`, six hours otherwise.
pub open spec fn gap_spec(v: Option<String>) -> i64 {
    match v {
        Some(s) => match int_text(s@) {
            Some(n) => if i64::MIN <= n <= i64::MAX { n as i64 } else { 21600 },
            None => 21600,
        },
        None => 21600,
    }
}

fn or_default(v: &Option<String>, dflt: &str) -> (r: String)
    ensures
        r@ == or_else(*v, dflt@),
{
    match v {
        Some(s) => s.clone(),
        None => dflt.to_string(),
    }
}

fn opt_clone(v: &Option<String>) -> (r: Option<String>)
    ensures
        opt_view(r) == opt_view(*v),
{
    match v {
        Some(s) => Some(s.clone()),
        None => None,
    }
}

impl Config {
    /// The configuration the environment `e` describes.
    pub fn from_vars(e: &EnvVars) -> (c: Config)
        ensures
            c.user@ == user_spec(*e),
            c.lib@ == (match e.reel_lib {
                Some(l) => l@,
                None => join_spec(home_spec(*e), "Videos"@),
            }),
            c.state_dir@ == join_spec(
                (match e.xdg_state_home {
                    Some(d) => d@,
                    None => join_spec(home_spec(*e), ".local/state"@),
                }),
                "reel"@,
            ),
            c.cache_dir@ == join_spec(
                (match e.xdg_cache_home {
                    Some(d) => d@,
                    None => join_spec(home_spec(*e), ".cache"@),
                }),
                "reel"@,
            ),
            c.remote@ == or_else(e.reel_remote, "nextcloud:Reels"@),
            c.media_user@ == or_else(e.user, user_spec(*e)),
            c.session_gap == gap_spec(e.reel_session_gap),
            opt_view(c.dji_sd) == opt_view(e.dji_sd),
            opt_view(c.gopro_sd) == opt_view(e.gopro_sd),
    {
        let home = or_default(&e.home, "/root");
        let user = match &e.reel_user {
            Some(u) => u.clone(),
            None => or_default(&e.user, "user"),
        };
        let lib = match &e.reel_lib {
            Some(l) => l.clone(),
            None => join(home.as_str(), "Videos"),
        };
        let state_base = match &e.xdg_state_home {
            Some(d) => d.clone(),
            None => join(home.as_str(), ".local/state"),
        };
        let cache_base = match &e.xdg_cache_home {
            Some(d) => d.clone(),
            None => join(home.as_str(), ".cache"),
        };
        let session_gap: i64 = match &e.reel_session_gap {
            Some(s) => match parse_i64(s.as_str()) {
                Some(n) => n,
                None => 21600,
            },
            None => 21600,
        };
        let media_user = match &e.user {
            Some(u) => u.clone(),
            None => user.clone(),
        };
        Config {
            lib,
            remote: or_default(&e.reel_remote, "nextcloud:Reels"),
            media_user,
            user,
            state_dir: join(state_base.as_str(), "reel"),
            cache_dir: join(cache_base.as_str(), "reel"),
            session_gap,
            dji_sd: opt_clone(&e.dji_sd),
            gopro_sd: opt_clone(&e.gopro_sd),
        }
    }

    pub fn ledger_path(&self) -> (p: String)
        ensures
            p@ == join_spec(self.state_dir@, "imported.tsv"@),
    {
        join(self.state_dir.as_str(), "imported.tsv")
    }

    /// The clip roots: the library, the card-preview proxy cache, the card
    /// overrides that are set, and the removable-media folder.
    pub open spec fn clip_roots_spec(&self) -> Seq<Seq<char>> {
        seq![self.lib@, join_spec(self.cache_dir@, "proxies"@)] + (match self.dji_sd {
            Some(p) => seq![p@],
            None => Seq::empty(),
        }) + (match self.gopro_sd {
            Some(p) => seq![p@],
            None => Seq::empty(),
        }) + seq![join_spec("/run/media"@, self.media_user@)]
    }

    /// The card-preview proxy of the clip with content id `fileid`.
    pub open spec fn card_proxy_spec(&self, fileid: Seq<char>) -> Seq<char> {
        join_spec(join_spec(self.cache_dir@, "proxies"@), fileid + ".mp4"@)
    }

    /// Every card-preview proxy lies inside a folder the clip server may stream
    /// from: the proxy cache is one of the clip roots, and the proxy path extends
    /// that root's path (for an id that is not itself an absolute path).
    pub proof fn lemma_card_proxy_in_scope(&self, fileid: Seq<char>)
        requires
            !(fileid.len() > 0 && fileid[0] == '/'),
        ensures
            self.clip_roots_spec().contains(join_spec(self.cache_dir@, "proxies"@)),
            join_spec(self.cache_dir@, "proxies"@).is_prefix_of(self.card_proxy_spec(fileid)),
            self.card_proxy_spec(fileid).len() > join_spec(self.cache_dir@, "proxies"@).len(),
    {
        let root = join_spec(self.cache_dir@, "proxies"@);
        assert(self.clip_roots_spec()[1] == root);
        reveal_strlit(".mp4");
        let name = fileid + ".mp4"@;
        assert(name.len() > 0);
        assert(name[0] != '/') by {
            if fileid.len() == 0 {
                assert(name[0] == '.');
            } else {
                assert(name[0] == fileid[0]);
            }
        }
        let p = self.card_proxy_spec(fileid);
        if root.len() == 0 {
            assert(root.is_prefix_of(p));
        } else if root.last() == '/' {
            assert(p =~= root + name);
            assert(p.subrange(0, root.len() as int) =~= root);
        } else {
            assert(p =~= root + seq!['/'] + name);
            assert(p.subrange(0, root.len() as int) =~= root);
        }
    }

    /// Filesystem roots the loopback clip server is allowed to stream from: the
    /// library, the card-preview proxy cache, and wherever a card mounts (the
    /// `/run/media/<user>` parent, or the `DJI_SD`/`GOPRO_SD` overrides). Card
    /// preview plays clips straight off the card and its remuxed proxies out of the
    /// cache, so the scope guard has to admit those paths — still same-user-readable
    /// locations, never an arbitrary path. (Trip proxies live under the library.)
    pub fn clip_roots(&self) -> (r: Vec<String>)
        ensures
            r@.map_values(|p: String| p@) == self.clip_roots_spec(),
    {
        let mut r: Vec<String> = Vec::new();
        r.push(self.lib.clone());
        r.push(join(self.cache_dir.as_str(), "proxies"));
        let ghost base = r@.map_values(|p: String| p@);
        if let Some(p) = &self.dji_sd {
            r.push(p.clone());
        }
        let ghost mid = r@.map_values(|p: String| p@);
        proof {
            assert(mid =~= base + (match self.dji_sd {
                Some(p) => seq![p@],
                None => Seq::<Seq<char>>::empty(),
            }));
        }
        if let Some(p) = &self.gopro_sd {
            r.push(p.clone());
        }
        let ghost late = r@.map_values(|p: String| p@);
        proof {
            assert(late =~= mid + (match self.gopro_sd {
                Some(p) => seq![p@],
                None => Seq::<Seq<char>>::empty(),
            }));
        }
        r.push(join("/run/media", self.media_user.as_str()));
        proof {
            assert(r@.map_values(|p: String| p@) =~= late + seq![join_spec("/run/media"@, self.media_user@)]);
        }
        r
    }

    /// Cache for on-demand *card* preview proxies, keyed by content id so it
    /// survives a card reinsert and is shared across sessions. (Trip proxies live
    /// beside their master under `<trip>/.proxies`; a card clip has no trip.)
    pub fn card_proxy_path(&self, fileid: &str) -> (p: String)
        ensures
            p@ == self.card_proxy_spec(fileid@),
    {
        let dir = join(self.cache_dir.as_str(), "proxies");
        let mut name = fileid.to_string();
        push_str(&mut name, ".mp4");
        join(dir.as_str(), name.as_str())
    }

    /// Content ids of footage the user permanently deleted. Kept beside the
    /// ledger so a killed clip still on a card reads as "discarded" and is never
    /// re-offered for import.
    pub fn tombstones_path(&self) -> (p: String)
        ensures
            p@ == join_spec(self.state_dir@, "deleted.tsv"@),
    {
        join(self.state_dir.as_str(), "deleted.tsv")
    }

    /// Per-trip sync baseline: which clips *should* be in the shared cloud
    /// (`person/camera/base` + size), one file per trip so a rename is a file
    /// rename with no row rewrites. Diffed against the live cloud listing to work
    /// out a trip's sync status; maintained by every cloud op.
    pub fn synced_dir(&self) -> (p: String)
        ensures
            p@ == join_spec(self.state_dir@, "synced"@),
    {
        join(self.state_dir.as_str(), "synced")
    }

    pub fn base_path(&self, trip: &str) -> (p: String)
        ensures
            p@ == join_spec(join_spec(self.state_dir@, "synced"@), trip@ + ".tsv"@),
    {
        let dir = self.synced_dir();
        let mut name = trip.to_string();
        push_str(&mut name, ".tsv");
        join(dir.as_str(), name.as_str())
    }

    /// Per-trip cache of the last cloud listing we fetched, so the dashboard can
    /// show cloud-side drift (and a "checked N ago") without a network hit.
    pub fn cloud_cache_path(&self, trip: &str) -> (p: String)
        ensures
            p@ == join_spec(join_spec(self.state_dir@, "cloud"@), trip@ + ".tsv"@),
    {
        let dir = join(self.state_dir.as_str(), "cloud");
        let mut name = trip.to_string();
        push_str(&mut name, ".tsv");
        join(dir.as_str(), name.as_str())
    }

    /// Directory of per-trip share caches (one `<trip>.tsv` each). Its union is the
    /// network-free "friends you share with" list.
    pub fn share_cache_dir(&self) -> (p: String)
        ensures
            p@ == join_spec(self.state_dir@, "shares"@),
    {
        join(self.state_dir.as_str(), "shares")
    }

    /// Per-trip cache of who the trip's cloud folder is shared with, from the last
    /// Sharing-panel (or background) fetch — lets the dashboard show a "shared
    /// with N" chip without a network hit (mirrors `cloud_cache_path`).
    pub fn share_cache_path(&self, trip: &str) -> (p: String)
        ensures
            p@ == join_spec(join_spec(self.state_dir@, "shares"@), trip@ + ".tsv"@),
    {
        let dir = self.share_cache_dir();
        let mut name = trip.to_string();
        push_str(&mut name, ".tsv");
        join(dir.as_str(), name.as_str())
    }

    /// Cloud ops owed because the remote was unreachable when they ran (a move, a
    /// rename, or a whole-trip purge — the ones the local/base/cloud compare can't
    /// re-derive on its own). Replayed on the next sync.
    pub fn pending_path(&self) -> (p: String)
        ensures
            p@ == join_spec(self.state_dir@, "pending.tsv"@),
    {
        join(self.state_dir.as_str(), "pending.tsv")
    }
}

} // verus!
