//! Where the state is kept, chosen from what the environment offers.

use vstd::prelude::*;

verus! {

/// A directory for caches.
#[derive(Debug, PartialEq, Eq)]
pub enum CacheDir<T> {
    /// The directory itself.
    Named(T),
    /// The directory `.cache` within this home directory.
    InHome(T),
}

/// The home directory, given what the environment offers.
pub open spec fn home_of<T>(home: Option<T>, profile: Option<T>) -> Option<T> {
    if home is Some {
        home
    } else {
        profile
    }
}

/// The directory for caches, given what the environment offers.
pub open spec fn cache_of<T>(cache: Option<T>, home: Option<T>, profile: Option<T>) -> Option<
    CacheDir<T>,
> {
    match (cache, home, profile) {
        (Some(c), _, _) => Some(CacheDir::Named(c)),
        (None, Some(h), _) => Some(CacheDir::InHome(h)),
        (None, None, Some(p)) => Some(CacheDir::InHome(p)),
        (None, None, None) => None,
    }
}

/// The home directory: the one that is set, or else the user's profile.
pub fn home_dir<T>(home: Option<T>, profile: Option<T>) -> (r: Option<T>)
    ensures
        r == (if home is Some {
            home
        } else {
            profile
        }),
        r == home_of(home, profile),
{
    match home {
        Some(h) => Some(h),
        None => profile,
    }
}

/// The directory for caches: the one that is set, or else the one in the home
/// directory; nothing where neither is known.
pub fn cache_dir<T>(cache: Option<T>, home: Option<T>, profile: Option<T>) -> (r: Option<
    CacheDir<T>,
>)
    ensures
        r == (match (cache, home, profile) {
            (Some(c), _, _) => Some(CacheDir::Named(c)),
            (None, Some(h), _) => Some(CacheDir::InHome(h)),
            (None, None, Some(p)) => Some(CacheDir::InHome(p)),
            (None, None, None) => None,
        }),
        r == cache_of(cache, home, profile),
{
    match cache {
        Some(c) => Some(CacheDir::Named(c)),
        None => match home_dir(home, profile) {
            Some(h) => Some(CacheDir::InHome(h)),
            None => None,
        },
    }
}

/// A directory for caches that is set is taken, whatever else is. Without it, the caches
/// are in the home directory, for which the user's profile only counts if none is set.
pub proof fn law_dirs<T>(dir: T, cache: Option<T>, home: Option<T>, profile: Option<T>)
    ensures
        cache_of(Some(dir), home, profile) == Some(CacheDir::Named(dir)),
        home_of(Some(dir), profile) == Some(dir),
        home_of(None, profile) == profile,
        match home_of(home, profile) {
            Some(h) => cache_of(None, home, profile) == Some(CacheDir::InHome(h)),
            None => cache_of(None::<T>, home, profile) is None,
        },
        cache_of(cache, home, profile) is None == (cache is None && home is None
            && profile is None),
{
}

} // verus!
