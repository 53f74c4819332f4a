use zari::error::AudioError;
use zari::timeline::Timeline;
use zari::track::TrackId;

#[test]
fn test_toggle_mute() {
    let mut timeline = Timeline::new(44100);
    let track_1 = timeline.new_track();
    let track_2 = timeline.new_track();
    let track_3 = timeline.new_track();

    timeline.mute(track_2).unwrap();

    assert!(!timeline.is_muted(track_1).unwrap());
    assert!(timeline.is_muted(track_2).unwrap());
    assert!(!timeline.is_muted(track_3).unwrap());

    assert!(timeline.is_active(track_1));
    assert!(!timeline.is_active(track_2));
    assert!(timeline.is_active(track_3));

    timeline.unmute(track_2).unwrap();

    assert!(!timeline.is_muted(track_1).unwrap());
    assert!(!timeline.is_muted(track_2).unwrap());
    assert!(!timeline.is_muted(track_3).unwrap());

    assert!(timeline.is_active(track_1));
    assert!(timeline.is_active(track_2));
    assert!(timeline.is_active(track_3));

    timeline.mute(track_1).unwrap();
    timeline.mute(track_3).unwrap();

    assert!(timeline.is_muted(track_1).unwrap());
    assert!(!timeline.is_muted(track_2).unwrap());
    assert!(timeline.is_muted(track_3).unwrap());

    assert!(!timeline.is_active(track_1));
    assert!(timeline.is_active(track_2));
    assert!(!timeline.is_active(track_3));
}

#[test]
fn test_toggle_solo() {
    let mut timeline = Timeline::new(44100);
    let track_id = timeline.new_track();

    timeline.solo(track_id).unwrap();

    assert!(timeline.is_soloed(track_id).unwrap());
    assert!(!timeline.is_muted(track_id).unwrap());
    assert!(timeline.is_active(track_id));

    timeline.unsolo(track_id).unwrap();

    assert!(!timeline.is_soloed(track_id).unwrap());
    assert!(!timeline.is_muted(track_id).unwrap());
    assert!(timeline.is_active(track_id));
}

#[test]
fn test_mute_solo_unsolo_unmute() {
    let mut timeline = Timeline::new(44100);
    let track_id = timeline.new_track();
    timeline.mute(track_id).unwrap();

    assert!(!timeline.is_soloed(track_id).unwrap());
    assert!(timeline.is_muted(track_id).unwrap());
    assert!(!timeline.is_active(track_id));

    timeline.solo(track_id).unwrap();

    assert!(timeline.is_soloed(track_id).unwrap());
    assert!(timeline.is_muted(track_id).unwrap());
    assert!(timeline.is_active(track_id));

    timeline.unsolo(track_id).unwrap();

    assert!(!timeline.is_soloed(track_id).unwrap());
    assert!(timeline.is_muted(track_id).unwrap());
    assert!(!timeline.is_active(track_id));

    timeline.unmute(track_id).unwrap();

    assert!(!timeline.is_soloed(track_id).unwrap());
    assert!(!timeline.is_muted(track_id).unwrap());
    assert!(timeline.is_active(track_id));
}

#[test]
fn test_mute_solo_unmute_unsolo() {
    let mut timeline = Timeline::new(44100);
    let track_id = timeline.new_track();
    timeline.mute(track_id).unwrap();

    assert!(!timeline.is_soloed(track_id).unwrap());
    assert!(timeline.is_muted(track_id).unwrap());
    assert!(!timeline.is_active(track_id));

    timeline.solo(track_id).unwrap();

    assert!(timeline.is_soloed(track_id).unwrap());
    assert!(timeline.is_muted(track_id).unwrap());
    assert!(timeline.is_active(track_id));

    timeline.unmute(track_id).unwrap();

    assert!(timeline.is_soloed(track_id).unwrap());
    assert!(!timeline.is_muted(track_id).unwrap());
    assert!(timeline.is_active(track_id));

    timeline.unsolo(track_id).unwrap();

    assert!(!timeline.is_soloed(track_id).unwrap());
    assert!(!timeline.is_muted(track_id).unwrap());
    assert!(timeline.is_active(track_id));
}

#[test]
fn test_solo_mute_unsolo_unmute() {
    let mut timeline = Timeline::new(44100);
    let track_id = timeline.new_track();
    timeline.solo(track_id).unwrap();

    assert!(timeline.is_soloed(track_id).unwrap());
    assert!(!timeline.is_muted(track_id).unwrap());
    assert!(timeline.is_active(track_id));

    timeline.mute(track_id).unwrap();

    assert!(!timeline.is_soloed(track_id).unwrap());
    assert!(timeline.is_muted(track_id).unwrap());
    assert!(!timeline.is_active(track_id));

    timeline.unsolo(track_id).unwrap();

    assert!(!timeline.is_soloed(track_id).unwrap());
    assert!(timeline.is_muted(track_id).unwrap());
    assert!(!timeline.is_active(track_id));

    timeline.unmute(track_id).unwrap();

    assert!(!timeline.is_soloed(track_id).unwrap());
    assert!(!timeline.is_muted(track_id).unwrap());
    assert!(timeline.is_active(track_id));
}

#[test]
fn test_solo_mute_unmute_unsolo() {
    let mut timeline = Timeline::new(44100);
    let track_id = timeline.new_track();
    timeline.solo(track_id).unwrap();

    assert!(timeline.is_soloed(track_id).unwrap());
    assert!(!timeline.is_muted(track_id).unwrap());
    assert!(timeline.is_active(track_id));

    timeline.mute(track_id).unwrap();

    assert!(!timeline.is_soloed(track_id).unwrap());
    assert!(timeline.is_muted(track_id).unwrap());
    assert!(!timeline.is_active(track_id));

    timeline.unmute(track_id).unwrap();

    assert!(!timeline.is_soloed(track_id).unwrap());
    assert!(!timeline.is_muted(track_id).unwrap());
    assert!(timeline.is_active(track_id));

    timeline.unsolo(track_id).unwrap();

    assert!(!timeline.is_soloed(track_id).unwrap());
    assert!(!timeline.is_muted(track_id).unwrap());
    assert!(timeline.is_active(track_id));
}

#[test]
fn test_mute_solo_unsolo_unmute_relative_to_other_track() {
    let mut timeline = Timeline::new(44100);
    let track_id = timeline.new_track();
    let other_track_id = timeline.new_track();

    timeline.mute(track_id).unwrap();

    assert!(!timeline.is_soloed(track_id).unwrap());
    assert!(timeline.is_muted(track_id).unwrap());
    assert!(!timeline.is_active(track_id));
    assert!(timeline.is_active(other_track_id));

    timeline.solo(track_id).unwrap();

    assert!(timeline.is_soloed(track_id).unwrap());
    assert!(timeline.is_muted(track_id).unwrap());
    assert!(timeline.is_active(track_id));
    assert!(!timeline.is_active(other_track_id));

    timeline.unsolo(track_id).unwrap();

    assert!(!timeline.is_soloed(track_id).unwrap());
    assert!(timeline.is_muted(track_id).unwrap());
    assert!(!timeline.is_active(track_id));
    assert!(!timeline.is_active(other_track_id));

    timeline.unmute(track_id).unwrap();

    assert!(!timeline.is_soloed(track_id).unwrap());
    assert!(!timeline.is_muted(track_id).unwrap());
    assert!(timeline.is_active(track_id));
    assert!(!timeline.is_active(other_track_id));
}

#[test]
fn test_all_orderings_of_mute_solo_pairs() {
    // Every interleaving of {mute, unmute, solo, unsolo} on a fresh track:
    // replay each sequence and check the flags against the transition
    // rules (mute clears solo; unmute, solo and unsolo touch only their
    // own flag on a single-track timeline).
    let ops = [0u8, 1, 2, 3];
    for a in ops {
        for b in ops {
            for c in ops {
                for d in ops {
                    let seq = [a, b, c, d];
                    let mut timeline = Timeline::new(48000);
                    let id = timeline.new_track();
                    let mut muted = false;
                    let mut soloed = false;
                    for op in seq {
                        match op {
                            0 => {
                                timeline.mute(id).unwrap();
                                muted = true;
                                soloed = false;
                            }
                            1 => {
                                timeline.unmute(id).unwrap();
                                muted = false;
                            }
                            2 => {
                                timeline.solo(id).unwrap();
                                soloed = true;
                            }
                            _ => {
                                timeline.unsolo(id).unwrap();
                                soloed = false;
                            }
                        }
                        assert_eq!(timeline.is_muted(id).unwrap(), muted);
                        assert_eq!(timeline.is_soloed(id).unwrap(), soloed);
                        assert_eq!(timeline.is_active(id), soloed || !muted);
                    }
                }
            }
        }
    }
}

#[test]
fn test_solo_forces_others_out_of_solo_and_into_mute() {
    let mut timeline = Timeline::new(44100);
    let a = timeline.new_track();
    let b = timeline.new_track();
    let c = timeline.new_track();

    timeline.solo(b).unwrap();
    assert!(timeline.is_soloed(b).unwrap());
    assert!(timeline.is_muted(a).unwrap());
    assert!(timeline.is_muted(c).unwrap());
    assert!(!timeline.is_soloed(a).unwrap());
    assert!(!timeline.is_soloed(c).unwrap());

    // Soloing another track steals the solo and mutes the previous holder.
    timeline.solo(c).unwrap();
    assert!(timeline.is_soloed(c).unwrap());
    assert!(!timeline.is_soloed(b).unwrap());
    assert!(timeline.is_muted(b).unwrap());
    assert!(timeline.is_active(c));
    assert!(!timeline.is_active(b));

    // Unsoloing does not restore the mute state that soloing forced onto
    // any track; c itself was muted by the earlier solo of b, so with no
    // solo left nothing is audible.
    timeline.unsolo(c).unwrap();
    assert!(timeline.is_muted(a).unwrap());
    assert!(timeline.is_muted(b).unwrap());
    assert!(timeline.is_muted(c).unwrap());
    assert!(!timeline.is_active(a));
    assert!(!timeline.is_active(b));
    assert!(!timeline.is_active(c));
}

#[test]
fn test_operations_on_unknown_track_fail() {
    let mut timeline = Timeline::new(44100);
    let ghost_id = TrackId::new(7);

    assert_eq!(timeline.mute(ghost_id), Err(AudioError::TrackNotFound(ghost_id)));
    assert_eq!(timeline.unmute(ghost_id), Err(AudioError::TrackNotFound(ghost_id)));
    assert_eq!(timeline.solo(ghost_id), Err(AudioError::TrackNotFound(ghost_id)));
    assert_eq!(timeline.unsolo(ghost_id), Err(AudioError::TrackNotFound(ghost_id)));
    assert_eq!(timeline.is_muted(ghost_id), Err(AudioError::TrackNotFound(ghost_id)));
    assert_eq!(timeline.is_soloed(ghost_id), Err(AudioError::TrackNotFound(ghost_id)));
    assert_eq!(
        timeline.set_volume(ghost_id, 50),
        Err(AudioError::TrackNotFound(ghost_id))
    );
    assert_eq!(
        timeline.add_clip(ghost_id, vec![0], 1),
        Err(AudioError::TrackNotFound(ghost_id))
    );
}

#[test]
fn test_volume_is_validated_and_stored() {
    let mut timeline = Timeline::new(44100);
    let id = timeline.new_track();

    assert_eq!(timeline.set_volume(id, 101), Err(AudioError::InvalidVolume(101)));
    assert_eq!(timeline.set_volume(id, 100), Ok(()));
    assert_eq!(timeline.set_volume(id, 0), Ok(()));
    assert_eq!(timeline.set_volume(id, 55), Ok(()));
    let track = timeline.get_track(id).unwrap();
    assert_eq!(track.volume_percent(), 55);
    assert_eq!(track.volume(), 55 * (zari::NORM_ONE / 100));
}

#[test]
fn test_track_ids_and_names_follow_creation_order() {
    let mut timeline = Timeline::new(44100);
    assert_eq!(timeline.track_count(), 0);
    let a = timeline.new_track();
    let b = timeline.new_track();
    assert_eq!(a.as_u32(), 1);
    assert_eq!(b.as_u32(), 2);
    assert_eq!(timeline.track_count(), 2);
    let ids = timeline.get_track_ids();
    assert_eq!(ids, vec![a, b]);

    assert_eq!(timeline.get_track(a).unwrap().name, "Track 1");
    assert_eq!(timeline.get_track(b).unwrap().name, "Track 2");

    timeline.set_track_name(b, String::from("Drums")).unwrap();
    assert_eq!(timeline.get_track(b).unwrap().name, "Drums");
}

#[test]
fn test_playhead_seek_and_reset() {
    let mut timeline = Timeline::new(44100);
    assert_eq!(timeline.playhead_position(), 0);
    timeline.set_playhead_position(22050);
    assert_eq!(timeline.playhead_position(), 22050);
    timeline.reset_playhead();
    assert_eq!(timeline.playhead_position(), 0);
    assert_eq!(timeline.sample_rate(), 44100);
}
