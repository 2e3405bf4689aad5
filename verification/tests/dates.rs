use abcom_ui::dates::{
    day_divider_label, divider_label, header_time, media_id, media_id_at, message_day,
    signed_string, CalendarDate, UiLanguage, LOCAL_TIME_LIMIT,
};

fn date(year: i32, month: u32, day: u32) -> CalendarDate {
    CalendarDate { year, month, day }
}

#[test]
fn divider_today_and_yesterday() {
    let today = date(2025, 3, 1);
    assert_eq!(day_divider_label(today, today, UiLanguage::French), "Aujourd'hui");
    assert_eq!(day_divider_label(today, today, UiLanguage::English), "Today");
    // The day before March 1st 2025 is February 28th.
    assert_eq!(day_divider_label(date(2025, 2, 28), today, UiLanguage::French), "Hier");
    assert_eq!(day_divider_label(date(2025, 2, 28), today, UiLanguage::English), "Yesterday");
}

#[test]
fn divider_yesterday_across_a_leap_day_and_a_year() {
    assert_eq!(day_divider_label(date(2024, 2, 29), date(2024, 3, 1), UiLanguage::English), "Yesterday");
    assert_eq!(day_divider_label(date(2023, 12, 31), date(2024, 1, 1), UiLanguage::English), "Yesterday");
}

#[test]
fn divider_full_dates() {
    let today = date(2025, 6, 10);
    assert_eq!(day_divider_label(date(2025, 6, 3), today, UiLanguage::French), "3 juin 2025");
    assert_eq!(day_divider_label(date(2025, 6, 3), today, UiLanguage::English), "June 3, 2025");
    assert_eq!(day_divider_label(date(2024, 8, 15), today, UiLanguage::French), "15 août 2024");
    assert_eq!(day_divider_label(date(2024, 12, 1), today, UiLanguage::English), "December 1, 2024");
}

#[test]
fn divider_with_a_given_yesterday() {
    let today = date(2025, 1, 5);
    let yesterday = Some(date(2025, 1, 4));
    assert_eq!(divider_label(date(2025, 1, 4), today, yesterday, UiLanguage::French), "Hier");
    assert_eq!(divider_label(date(2025, 1, 4), today, None, UiLanguage::French), "4 janvier 2025");
    assert_eq!(divider_label(date(-44, 3, 15), today, None, UiLanguage::English), "March 15, -44");
}

#[test]
fn signed_numbers() {
    assert_eq!(signed_string(0), "0");
    assert_eq!(signed_string(-17), "-17");
    assert_eq!(signed_string(i64::MIN), "-9223372036854775808");
}

#[test]
fn message_days_and_header_times() {
    assert_eq!(message_day(None), None);
    let day = message_day(Some(1_700_000_000)).unwrap();
    assert!(1 <= day.month && day.month <= 12 && 1 <= day.day && day.day <= 31);
    assert_eq!(header_time(None, "12:34"), "12:34");
    let t = header_time(Some(1_700_000_000), "x");
    assert_eq!(t.chars().count(), 5);
    assert_eq!(t.chars().nth(2), Some(':'));
}

#[test]
fn message_day_is_the_utc_day_or_one_next_to_it() {
    // 1_700_000_000 is 2023-11-14 22:13:20 UTC.
    let day = message_day(Some(1_700_000_000)).unwrap();
    assert_eq!((day.year, day.month), (2023, 11));
    assert!(13 <= day.day && day.day <= 15);
    let t: Vec<char> = header_time(Some(1_700_000_000), "x").chars().collect();
    let hours = t[0].to_digit(10).unwrap() * 10 + t[1].to_digit(10).unwrap();
    let minutes = t[3].to_digit(10).unwrap() * 10 + t[4].to_digit(10).unwrap();
    assert!(hours < 24 && minutes < 60);
    // 0 is 1970-01-01 00:00:00 UTC.
    let day = message_day(Some(0)).unwrap();
    assert!(day == CalendarDate { year: 1970, month: 1, day: 1 } || day == CalendarDate { year: 1969, month: 12, day: 31 });
}

#[test]
fn message_days_up_to_the_limit() {
    for epoch in [0, 1, 86_399, 86_400, 4_102_444_800, LOCAL_TIME_LIMIT] {
        let day = message_day(Some(epoch)).unwrap();
        assert!(1 <= day.month && day.month <= 12 && 1 <= day.day && day.day <= 31);
    }
}

#[test]
fn media_ids_keep_safe_characters() {
    assert_eq!(media_id_at(1234, "my photo (1).png"), "1234-my_photo__1_.png");
    assert_eq!(media_id_at(-5, "é.txt"), "-5-_.txt");
}

#[test]
fn media_id_law_different_instants_give_different_ids() {
    assert_ne!(media_id_at(12, "a"), media_id_at(1, "a"));
    assert_ne!(media_id_at(-1, "a"), media_id_at(1, "a"));
    let id = media_id("clip.mp4");
    let (instant, rest) = id.split_once('-').unwrap();
    assert!(instant.parse::<i64>().is_ok());
    assert_eq!(rest, "clip.mp4");
}

#[test]
fn yesterday_across_month_and_year_ends() {
    let today = CalendarDate { year: 2024, month: 3, day: 1 };
    assert_eq!(day_divider_label(CalendarDate { year: 2024, month: 2, day: 29 }, today, UiLanguage::English), "Yesterday");
    let today = CalendarDate { year: 2025, month: 1, day: 1 };
    assert_eq!(day_divider_label(CalendarDate { year: 2024, month: 12, day: 31 }, today, UiLanguage::French), "Hier");
}
